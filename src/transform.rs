//! Content transformations: frontmatter extraction and TOML rendering.

use vstd::prelude::*;
use vstd::std_specs::iter::IteratorSpec;

verus! {

broadcast use vstd::string::group_string_axioms;

/// The characters of `s`, in order.
pub fn chars_of(s: &str) -> (r: Vec<char>)
    ensures
        r@ == s@,
{
    let mut out: Vec<char> = Vec::new();
    let mut it = s.chars();
    loop
        invariant
            it.obeys_prophetic_iter_laws(),
            out@ + it.remaining() == s@,
            it.decrease() is Some,
        ensures
            out@ == s@,
        decreases it.decrease()->0,
    {
        match it.next() {
            Some(c) => {
                out.push(c);
            },
            None => {
                assert(out@ + it.remaining() =~= out@);
                break;
            },
        }
    }
    out
}

/// What a document declares in its frontmatter.
#[derive(Debug)]
pub struct FrontmatterData {
    pub description: Option<String>,
}

pub open spec fn opt_view(o: Option<String>) -> Option<Seq<char>> {
    match o {
        Some(s) => Some(s@),
        None => None,
    }
}

/// The pieces of `s` between newline characters: one more than there are newlines.
pub open spec fn pieces(s: Seq<char>) -> Seq<Seq<char>>
    decreases s.len(),
{
    if s.len() == 0 {
        seq![seq![]]
    } else {
        let p = pieces(s.drop_last());
        if s.last() == '\n' {
            p.push(seq![])
        } else {
            p.update(p.len() - 1, p.last().push(s.last()))
        }
    }
}

pub open spec fn strip_cr(l: Seq<char>) -> Seq<char> {
    if l.len() > 0 && l.last() == '\r' {
        l.drop_last()
    } else {
        l
    }
}

/// The lines of `s`: split at `\n` or `\r\n`, with no empty line after a
/// final line ending.
pub open spec fn lines_of(s: Seq<char>) -> Seq<Seq<char>> {
    let p = pieces(s);
    let n = if p.last().len() == 0 {
        p.len() - 1
    } else {
        p.len() as int
    };
    Seq::new(
        n as nat,
        |i: int|
            if i < p.len() - 1 {
                strip_cr(p[i])
            } else {
                p[i]
            },
    )
}

/// Lines joined back together with `\n` between them.
pub open spec fn join_lines(ls: Seq<Seq<char>>) -> Seq<char>
    decreases ls.len(),
{
    if ls.len() == 0 {
        seq![]
    } else if ls.len() == 1 {
        ls[0]
    } else {
        join_lines(ls.drop_last()) + seq!['\n'] + ls.last()
    }
}

pub open spec fn is_space(c: char) -> bool {
    c == ' ' || c == '\t' || c == '\n' || c == '\r' || c == '\x0B' || c == '\x0C'
}

pub open spec fn trim_start(s: Seq<char>) -> Seq<char>
    decreases s.len(),
{
    if s.len() > 0 && is_space(s[0]) {
        trim_start(s.drop_first())
    } else {
        s
    }
}

pub open spec fn trim_end(s: Seq<char>) -> Seq<char>
    decreases s.len(),
{
    if s.len() > 0 && is_space(s.last()) {
        trim_end(s.drop_last())
    } else {
        s
    }
}

pub open spec fn trim(s: Seq<char>) -> Seq<char> {
    trim_end(trim_start(s))
}

/// `s` without one layer of matching single or double quotes around it.
pub open spec fn unquote(s: Seq<char>) -> Seq<char> {
    if s.len() >= 2 && ((s[0] == '"' && s.last() == '"') || (s[0] == '\'' && s.last() == '\'')) {
        s.subrange(1, s.len() - 1)
    } else {
        s
    }
}

pub open spec fn delimiter() -> Seq<char> {
    seq!['-', '-', '-']
}

pub open spec fn description_key() -> Seq<char> {
    seq!['d', 'e', 's', 'c', 'r', 'i', 'p', 't', 'i', 'o', 'n', ':']
}

/// The value a line gives to `description`, if it is a description line.
pub open spec fn description_value(line: Seq<char>) -> Option<Seq<char>> {
    let t = trim(line);
    if t.len() >= 12 && t.take(12) == description_key() {
        Some(unquote(trim(t.skip(12))))
    } else {
        None
    }
}

/// The value of the last description line among `ls[lo..hi]`.
pub open spec fn last_description(ls: Seq<Seq<char>>, lo: int, hi: int) -> Option<Seq<char>>
    decreases hi - lo,
{
    if hi <= lo {
        None
    } else {
        match description_value(ls[hi - 1]) {
            Some(v) => Some(v),
            None => last_description(ls, lo, hi - 1),
        }
    }
}

/// The index of the first delimiter line at or after `j`.
pub open spec fn delimiter_from(ls: Seq<Seq<char>>, j: int) -> Option<int>
    decreases ls.len() - j,
{
    if j < 0 || j >= ls.len() {
        None
    } else if ls[j] == delimiter() {
        Some(j)
    } else {
        delimiter_from(ls, j + 1)
    }
}

/// Where the body starts, given the index of the closing delimiter: one
/// blank separator line after it is skipped.
pub open spec fn body_start(ls: Seq<Seq<char>>, end: int) -> int {
    if end + 1 < ls.len() && ls[end + 1].len() == 0 {
        end + 2
    } else {
        end + 1
    }
}

/// The description and body of a document. A document that does not open
/// with a delimiter line, or whose block is never closed, has no metadata and
/// is its own body.
pub open spec fn frontmatter(s: Seq<char>) -> (Option<Seq<char>>, Seq<char>) {
    let ls = lines_of(s);
    if ls.len() == 0 || ls[0] != delimiter() {
        (None, s)
    } else {
        match delimiter_from(ls, 1) {
            None => (None, s),
            Some(end) => (
                last_description(ls, 1, end),
                join_lines(ls.subrange(body_start(ls, end), ls.len() as int)),
            ),
        }
    }
}

pub proof fn lemma_pieces_nonempty(s: Seq<char>)
    ensures
        pieces(s).len() >= 1,
    decreases s.len(),
{
    if s.len() > 0 {
        lemma_pieces_nonempty(s.drop_last());
    }
}

/// `rs` gives, as ranges of `cs`, the lines `ls`.
pub open spec fn ranges_hold(cs: Seq<char>, rs: Seq<(usize, usize)>, ls: Seq<Seq<char>>) -> bool {
    &&& rs.len() == ls.len()
    &&& forall|i: int|
        #![trigger rs[i]]
        0 <= i < rs.len() ==> rs[i].0 <= rs[i].1 <= cs.len() && cs.subrange(
            rs[i].0 as int,
            rs[i].1 as int,
        ) == ls[i]
}

/// The lines of `cs`, as ranges of it.
fn line_ranges(cs: &Vec<char>) -> (r: Vec<(usize, usize)>)
    ensures
        ranges_hold(cs@, r@, lines_of(cs@)),
{
    let n = cs.len();
    let mut rs: Vec<(usize, usize)> = Vec::new();
    let mut start: usize = 0;
    let mut k: usize = 0;
    assert(cs@.take(0) =~= Seq::<char>::empty());
    assert(cs@.subrange(0, 0) =~= Seq::<char>::empty());
    while k < n
        invariant
            n == cs.len(),
            start <= k <= n,
            pieces(cs@.take(k as int)).len() == rs.len() + 1,
            forall|j: int|
                #![trigger rs[j]]
                0 <= j < rs.len() ==> rs[j].0 <= rs[j].1 <= k && cs@.subrange(
                    rs[j].0 as int,
                    rs[j].1 as int,
                ) == strip_cr(pieces(cs@.take(k as int))[j]),
            pieces(cs@.take(k as int)).last() == cs@.subrange(start as int, k as int),
        decreases n - k,
    {
        let c = cs[k];
        let ghost old_p = pieces(cs@.take(k as int));
        assert(cs@.take(k + 1).drop_last() =~= cs@.take(k as int));
        proof {
            lemma_pieces_nonempty(cs@.take(k as int));
        }
        if c == '\n' {
            let e: usize = if start < k && cs[k - 1] == '\r' {
                k - 1
            } else {
                k
            };
            proof {
                let piece = cs@.subrange(start as int, k as int);
                if start < k && cs[k - 1] == '\r' {
                    assert(piece.drop_last() =~= cs@.subrange(start as int, e as int));
                }
                assert(strip_cr(piece) == cs@.subrange(start as int, e as int));
            }
            rs.push((start, e));
            start = k + 1;
            assert(cs@.subrange(start as int, k + 1) =~= Seq::<char>::empty());
        } else {
            assert(cs@.subrange(start as int, k + 1) =~= cs@.subrange(start as int, k as int).push(
                c,
            ));
        }
        k = k + 1;
    }
    assert(cs@.take(n as int) =~= cs@);
    proof {
        lemma_pieces_nonempty(cs@);
    }
    let ghost p = pieces(cs@);
    let ghost old_rs = rs@;
    if start < n {
        rs.push((start, n));
    }
    proof {
        let ls = lines_of(cs@);
        assert(ls.len() == rs@.len());
        assert forall|i: int| #![trigger rs@[i]] 0 <= i < rs@.len() implies rs@[i].0 <= rs@[i].1 <= cs.len()
            && cs@.subrange(rs@[i].0 as int, rs@[i].1 as int) == ls[i] by {
            assert(p.len() == old_rs.len() + 1);
            if i < old_rs.len() {
                assert(rs@[i] == old_rs[i]);
                assert(old_rs[i].0 <= old_rs[i].1 <= n);
                assert(cs@.subrange(old_rs[i].0 as int, old_rs[i].1 as int) == strip_cr(p[i]));
                assert(ls[i] == strip_cr(p[i]));
            } else {
                assert(rs@[i] == (start, n));
                assert(ls[i] == p[i]);
                assert(p[i] == p.last());
            }
        }
        assert(ranges_hold(cs@, rs@, ls));
    }
    rs
}

/// Whether `cs[b..e]` is a delimiter line.
fn is_delimiter(cs: &Vec<char>, b: usize, e: usize) -> (r: bool)
    requires
        b <= e <= cs.len(),
    ensures
        r == (cs@.subrange(b as int, e as int) == delimiter()),
{
    if e - b == 3 && cs[b] == '-' && cs[b + 1] == '-' && cs[b + 2] == '-' {
        assert(cs@.subrange(b as int, e as int) =~= delimiter());
        true
    } else {
        let ghost l = cs@.subrange(b as int, e as int);
        assert(l != delimiter()) by {
            if l == delimiter() {
                assert(l.len() == 3);
                assert(l[0] == cs@[b as int] && l[1] == cs@[b + 1] && l[2] == cs@[b + 2]);
            }
        }
        false
    }
}

/// The range of `trim(cs[b..e])`.
fn trim_range(cs: &Vec<char>, b: usize, e: usize) -> (r: (usize, usize))
    requires
        b <= e <= cs.len(),
    ensures
        b <= r.0 <= r.1 <= e,
        cs@.subrange(r.0 as int, r.1 as int) == trim(cs@.subrange(b as int, e as int)),
{
    let mut nb = b;
    while nb < e && is_space_char(cs[nb])
        invariant
            b <= nb <= e <= cs.len(),
            trim_start(cs@.subrange(nb as int, e as int)) == trim_start(
                cs@.subrange(b as int, e as int),
            ),
        decreases e - nb,
    {
        assert(cs@.subrange(nb as int, e as int).drop_first() =~= cs@.subrange(nb + 1, e as int));
        nb = nb + 1;
    }
    let mut ne = e;
    while ne > nb && is_space_char(cs[ne - 1])
        invariant
            b <= nb <= ne <= e <= cs.len(),
            trim_end(cs@.subrange(nb as int, ne as int)) == trim_end(
                trim_start(cs@.subrange(b as int, e as int)),
            ),
        decreases ne - nb,
    {
        assert(cs@.subrange(nb as int, ne as int).drop_last() =~= cs@.subrange(
            nb as int,
            ne - 1,
        ));
        ne = ne - 1;
    }
    (nb, ne)
}

fn is_space_char(c: char) -> (r: bool)
    ensures
        r == is_space(c),
{
    c == ' ' || c == '\t' || c == '\n' || c == '\r' || c == '\x0B' || c == '\x0C'
}

/// The range of the value of the description line `cs[b..e]`, if it is one.
fn description_range(cs: &Vec<char>, b: usize, e: usize) -> (r: Option<(usize, usize)>)
    requires
        b <= e <= cs.len(),
    ensures
        match r {
            Some((vb, ve)) => vb <= ve <= cs.len() && description_value(
                cs@.subrange(b as int, e as int),
            ) == Some(cs@.subrange(vb as int, ve as int)),
            None => description_value(cs@.subrange(b as int, e as int)) is None,
        },
{
    let (tb, te) = trim_range(cs, b, e);
    let ghost t = cs@.subrange(tb as int, te as int);
    let key: Vec<char> = vec!['d', 'e', 's', 'c', 'r', 'i', 'p', 't', 'i', 'o', 'n', ':'];
    assert(key@ =~= description_key());
    if te - tb < 12 {
        return None;
    }
    let mut i: usize = 0;
    while i < 12
        invariant
            i <= 12,
            tb + 12 <= te <= cs.len(),
            t == cs@.subrange(tb as int, te as int),
            t == trim(cs@.subrange(b as int, e as int)),
            b <= e <= cs.len(),
            key@ == description_key(),
            forall|j: int| 0 <= j < i ==> t[j] == key@[j],
        decreases 12 - i,
    {
        if cs[tb + i] != key[i] {
            assert(t.take(12)[i as int] != description_key()[i as int]);
            return None;
        }
        i = i + 1;
    }
    assert(t.take(12) =~= description_key());
    assert(t.skip(12) =~= cs@.subrange(tb + 12, te as int));
    let (vb, ve) = trim_range(cs, tb + 12, te);
    let ghost v = cs@.subrange(vb as int, ve as int);
    if ve - vb >= 2 && ((cs[vb] == '"' && cs[ve - 1] == '"') || (cs[vb] == '\'' && cs[ve - 1]
        == '\'')) {
        assert(v.subrange(1, v.len() - 1) =~= cs@.subrange(vb + 1, ve - 1));
        Some((vb + 1, ve - 1))
    } else {
        Some((vb, ve))
    }
}

/// Splits a document into its frontmatter description and its body.
///
/// The first line must be `---` and a later line `---` must close the block;
/// otherwise the document has no metadata and is returned whole. Within the
/// block the last line that reads `description: value` wins; the value is
/// trimmed and loses one layer of matching quotes. The body is every line
/// after the closing delimiter, less one blank separator line right after it.
pub fn parse_frontmatter(content: &str) -> (r: (FrontmatterData, String))
    ensures
        opt_view(r.0.description) == frontmatter(content@).0,
        r.1@ == frontmatter(content@).1,
{
    let cs = chars_of(content);
    let rs = line_ranges(&cs);
    let ghost ls = lines_of(cs@);
    let n = rs.len();
    if n == 0 || !is_delimiter(&cs, rs[0].0, rs[0].1) {
        return (FrontmatterData { description: None }, String::from_str(content));
    }
    let mut j: usize = 1;
    while j < n && !is_delimiter(&cs, rs[j].0, rs[j].1)
        invariant
            1 <= j <= n,
            n == rs.len(),
            ranges_hold(cs@, rs@, ls),
            delimiter_from(ls, 1) == delimiter_from(ls, j as int),
        decreases n - j,
    {
        j = j + 1;
    }
    if j == n {
        return (FrontmatterData { description: None }, String::from_str(content));
    }
    let end = j;
    assert(delimiter_from(ls, 1) == Some(end as int));
    let mut description: Option<String> = None;
    let mut d: usize = 1;
    while d < end
        invariant
            1 <= d <= end < n,
            n == rs.len(),
            cs@ == content@,
            ranges_hold(cs@, rs@, ls),
            opt_view(description) == last_description(ls, 1, d as int),
        decreases end - d,
    {
        match description_range(&cs, rs[d].0, rs[d].1) {
            Some((vb, ve)) => {
                description = Some(String::from_str(content.substring_char(vb, ve)));
            },
            None => {},
        }
        d = d + 1;
    }
    let start = if end + 1 < n && rs[end + 1].0 == rs[end + 1].1 {
        end + 2
    } else {
        end + 1
    };
    assert(start == body_start(ls, end as int));
    let mut body = String::new();
    let mut k: usize = start;
    assert(ls.subrange(start as int, start as int) =~= Seq::<Seq<char>>::empty());
    proof {
        reveal_strlit("\n");
    }
    while k < n
        invariant
            start <= k <= n,
            n == rs.len(),
            cs@ == content@,
            ranges_hold(cs@, rs@, ls),
            body@ == join_lines(ls.subrange(start as int, k as int)),
            "\n"@ == seq!['\n'],
        decreases n - k,
    {
        let ghost prev = ls.subrange(start as int, k as int);
        let ghost next = ls.subrange(start as int, k + 1);
        assert(next.drop_last() =~= prev);
        if k > start {
            body.append("\n");
        } else {
            assert(prev.len() == 0);
        }
        body.append(content.substring_char(rs[k].0, rs[k].1));
        assert(body@ =~= join_lines(next));
        k = k + 1;
    }
    (FrontmatterData { description }, body)
}

/// The description used when a document declares none.
pub open spec fn default_description() -> Seq<char> {
    "Custom skill"@
}

/// How one character is written inside a TOML basic (double-quoted) string.
pub open spec fn escape_char(c: char) -> Seq<char> {
    if c == '\\' {
        seq!['\\', '\\']
    } else if c == '"' {
        seq!['\\', '"']
    } else {
        seq![c]
    }
}

/// `s` escaped for a TOML basic string: backslashes first, then double quotes.
pub open spec fn escape(s: Seq<char>) -> Seq<char>
    decreases s.len(),
{
    if s.len() == 0 {
        seq![]
    } else {
        escape_char(s[0]) + escape(s.drop_first())
    }
}

/// The command file rendered from a description and a prompt body.
pub open spec fn toml_doc(description: Seq<char>, body: Seq<char>) -> Seq<char> {
    "description = \""@ + escape(description) + "\"\nprompt = '''\n"@ + body + "\n'''\n"@
}

pub proof fn lemma_escape_concat(a: Seq<char>, b: Seq<char>)
    ensures
        escape(a + b) == escape(a) + escape(b),
    decreases a.len(),
{
    if a.len() == 0 {
        assert(a + b =~= b);
        assert(escape(a) + escape(b) =~= escape(b));
    } else {
        assert((a + b).drop_first() =~= a.drop_first() + b);
        lemma_escape_concat(a.drop_first(), b);
        assert(escape(a + b) =~= escape(a) + escape(b));
    }
}

proof fn lemma_escape_single(c: char)
    ensures
        escape(seq![c]) == escape_char(c),
{
    assert(seq![c].drop_first() =~= Seq::<char>::empty());
    assert(escape(seq![c]) =~= escape_char(c) + escape(Seq::<char>::empty()));
    assert(escape_char(c) + Seq::<char>::empty() =~= escape_char(c));
}

fn escape_description(d: &str) -> (r: String)
    ensures
        r@ == escape(d@),
{
    let cs = chars_of(d);
    let mut out = String::new();
    let mut i: usize = 0;
    proof {
        reveal_strlit("\\\\");
        reveal_strlit("\\\"");
        assert("\\\\"@ =~= seq!['\\', '\\']);
        assert("\\\""@ =~= seq!['\\', '"']);
        assert(d@.take(0) =~= Seq::<char>::empty());
    }
    while i < cs.len()
        invariant
            cs@ == d@,
            i <= cs.len(),
            out@ == escape(d@.take(i as int)),
            "\\\\"@ == seq!['\\', '\\'],
            "\\\""@ == seq!['\\', '"'],
        decreases cs.len() - i,
    {
        let c = cs[i];
        proof {
            assert(d@.take(i + 1) =~= d@.take(i as int) + seq![c]);
            lemma_escape_concat(d@.take(i as int), seq![c]);
            lemma_escape_single(c);
        }
        if c == '\\' {
            out.append("\\\\");
        } else if c == '"' {
            out.append("\\\"");
        } else {
            let one = d.substring_char(i, i + 1);
            assert(one@ =~= seq![c]);
            out.append(one);
        }
        i = i + 1;
    }
    assert(d@.take(i as int) =~= d@);
    out
}

/// Renders a command file: the description (or the default one) as an
/// escaped basic string, and the body verbatim as a literal multi-line string.
pub fn generate_toml(description: Option<String>, content: &str) -> (r: String)
    ensures
        r@ == toml_doc(
            match description {
                Some(d) => d@,
                None => default_description(),
            },
            content@,
        ),
{
    let desc = match description {
        Some(d) => d,
        None => String::from_str("Custom skill"),
    };
    let esc = escape_description(desc.as_str());
    let mut out = String::from_str("description = \"");
    out.append(esc.as_str());
    out.append("\"\nprompt = '''\n");
    out.append(content);
    out.append("\n'''\n");
    out
}

/// Reads a TOML basic string body (what stands between the quotes): `\\`
/// and `\"` are escapes, any other backslash or a bare quote makes it invalid.
pub open spec fn decode_basic(s: Seq<char>) -> Option<Seq<char>>
    decreases s.len(),
{
    if s.len() == 0 {
        Some(seq![])
    } else if s[0] == '\\' {
        if s.len() >= 2 && (s[1] == '\\' || s[1] == '"') {
            match decode_basic(s.skip(2)) {
                Some(r) => Some(seq![s[1]] + r),
                None => None,
            }
        } else {
            None
        }
    } else if s[0] == '"' {
        None
    } else {
        match decode_basic(s.skip(1)) {
            Some(r) => Some(seq![s[0]] + r),
            None => None,
        }
    }
}

pub open spec fn description_or_default(d: Option<Seq<char>>) -> Seq<char> {
    match d {
        Some(v) => v,
        None => default_description(),
    }
}

/// Any description, backslashes and double quotes included, is rendered
/// into the description field as a valid basic string that reads back as
/// the description itself.
pub proof fn law_escaped_description_decodes(d: Seq<char>)
    ensures
        decode_basic(escape(d)) == Some(d),
    decreases d.len(),
{
    if d.len() > 0 {
        let e = escape_char(d[0]);
        let rest = escape(d.drop_first());
        law_escaped_description_decodes(d.drop_first());
        assert((e + rest).skip(e.len() as int) =~= rest);
        assert(seq![d[0]] + d.drop_first() =~= d);
        if d[0] == '\\' || d[0] == '"' {
            assert((e + rest)[0] == '\\');
            assert((e + rest)[1] == d[0]);
        } else {
            assert((e + rest)[0] == d[0]);
        }
    }
}

pub proof fn lemma_delimiter_from(ls: Seq<Seq<char>>, j: int)
    ensures
        match delimiter_from(ls, j) {
            Some(k) => 0 <= j <= k < ls.len() && ls[k] == delimiter() && forall|i: int|
                j <= i < k ==> ls[i] != delimiter(),
            None => forall|i: int| 0 <= j <= i < ls.len() ==> ls[i] != delimiter(),
        },
    decreases ls.len() - j,
{
    if 0 <= j < ls.len() && ls[j] != delimiter() {
        lemma_delimiter_from(ls, j + 1);
    }
}

/// Extracting and then rendering a document with a closed frontmatter block
/// puts into the prompt exactly the lines after the closing delimiter (less
/// one blank separator line): neither delimiter line of the block is among
/// them, and when no later line is a delimiter, no line of the prompt is one.
pub proof fn law_rendered_body_excludes_frontmatter(s: Seq<char>)
    requires
        lines_of(s).len() > 0,
        lines_of(s)[0] == delimiter(),
        delimiter_from(lines_of(s), 1) is Some,
    ensures
        ({
            let ls = lines_of(s);
            let end = delimiter_from(ls, 1)->0;
            let body_lines = ls.subrange(body_start(ls, end), ls.len() as int);
            &&& 0 < end < body_start(ls, end) <= ls.len()
            &&& ls[end] == delimiter()
            &&& toml_doc(description_or_default(frontmatter(s).0), frontmatter(s).1) == toml_doc(
                description_or_default(last_description(ls, 1, end)),
                join_lines(body_lines),
            )
            &&& (forall|i: int| end < i < ls.len() ==> ls[i] != delimiter()) ==> (forall|i: int|
                0 <= i < body_lines.len() ==> body_lines[i] != delimiter())
        }),
{
    let ls = lines_of(s);
    lemma_delimiter_from(ls, 1);
    let end = delimiter_from(ls, 1)->0;
    let start = body_start(ls, end);
    let body_lines = ls.subrange(start, ls.len() as int);
    assert forall|i: int| 0 <= i < body_lines.len() && (forall|k: int| end < k < ls.len() ==> ls[k] != delimiter())
        implies body_lines[i] != delimiter() by {
        assert(body_lines[i] == ls[start + i]);
    }
}

} // verus!
