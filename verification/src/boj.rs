//! Sample handling for testing a solution: comparing a program's output
//! with the expected output line by line, and reading the sample cases of a
//! problem page.
use crate::fastio::opt_view;
use vstd::prelude::*;
use vstd::utf8::{decode_utf8, valid_utf8};

verus! {

broadcast use vstd::string::group_string_axioms;

/// `c` has the Unicode `White_Space` property, as `char::is_whitespace` says.
pub open spec fn is_white_space(c: char) -> bool {
    let u = c as u32;
    ||| 9 <= u <= 13
    ||| u == 32
    ||| u == 0x85
    ||| u == 0xA0
    ||| u == 0x1680
    ||| 0x2000 <= u <= 0x200A
    ||| u == 0x2028
    ||| u == 0x2029
    ||| u == 0x202F
    ||| u == 0x205F
    ||| u == 0x3000
}

/// Whether `c` has the Unicode `White_Space` property.
pub fn white_space(c: char) -> (r: bool)
    ensures
        r == is_white_space(c),
{
    let u = c as u32;
    (9 <= u && u <= 13) || u == 32 || u == 0x85 || u == 0xA0 || u == 0x1680 || (0x2000 <= u && u
        <= 0x200A) || u == 0x2028 || u == 0x2029 || u == 0x202F || u == 0x205F || u == 0x3000
}

/// `s` without its trailing white space, as `str::trim_end` gives it.
pub open spec fn trim_end(s: Seq<char>) -> Seq<char>
    decreases s.len(),
{
    if s.len() > 0 && is_white_space(s.last()) {
        trim_end(s.drop_last())
    } else {
        s
    }
}

/// Appending white space does not change what `trim_end` keeps: a program's
/// output is judged the same with any trailing white space.
pub proof fn lemma_trim_end_append(s: Seq<char>, w: Seq<char>)
    requires
        forall|i: int| 0 <= i < w.len() ==> is_white_space(#[trigger] w[i]),
    ensures
        trim_end(s + w) == trim_end(s),
    decreases w.len(),
{
    if w.len() == 0 {
        assert(s + w =~= s);
    } else {
        assert((s + w).drop_last() =~= s + w.drop_last());
        assert((s + w).last() == w.last());
        lemma_trim_end_append(s, w.drop_last());
    }
}

/// The index of the first `'\n'` at or after `i` (or the length).
pub open spec fn first_nl(s: Seq<char>, i: int) -> int
    decreases s.len() - i,
{
    if i < 0 || i >= s.len() || s[i] == '\n' {
        i
    } else {
        first_nl(s, i + 1)
    }
}

/// `first_nl` stops in range, on a `'\n'` or at the end.
pub proof fn lemma_first_nl(s: Seq<char>, i: int)
    requires
        0 <= i <= s.len(),
    ensures
        i <= first_nl(s, i) <= s.len(),
        first_nl(s, i) < s.len() ==> s[first_nl(s, i)] == '\n',
    decreases s.len() - i,
{
    if i < s.len() && s[i] != '\n' {
        lemma_first_nl(s, i + 1);
    }
}

/// A line without the `'\r'` of a `"\r\n"` ending.
pub open spec fn strip_cr(l: Seq<char>) -> Seq<char> {
    if l.len() > 0 && l.last() == '\r' {
        l.drop_last()
    } else {
        l
    }
}

/// The lines of `s` from index `i`, as `str::lines` gives them: split at
/// `'\n'`, a `'\r'` before the `'\n'` removed, and no empty line after a
/// final `'\n'`.
pub open spec fn lines_from(s: Seq<char>, i: int) -> Seq<Seq<char>>
    decreases s.len() - i,
{
    if i < 0 || i >= s.len() {
        Seq::empty()
    } else {
        proof {
            lemma_first_nl(s, i);
        }
        let j = first_nl(s, i);
        if j >= s.len() {
            seq![s.subrange(i, s.len() as int)]
        } else {
            seq![strip_cr(s.subrange(i, j))] + lines_from(s, j + 1)
        }
    }
}

/// The lines of `s`.
pub open spec fn lines(s: Seq<char>) -> Seq<Seq<char>> {
    lines_from(s, 0)
}

/// No character of `s` is `c`.
pub open spec fn has_no(s: Seq<char>, c: char) -> bool {
    forall|i: int| 0 <= i < s.len() ==> s[i] != c
}

/// The lines joined back together, with a `'\n'` between two of them.
pub open spec fn join_lines(ls: Seq<Seq<char>>) -> Seq<char>
    decreases ls.len(),
{
    if ls.len() == 0 {
        Seq::empty()
    } else if ls.len() == 1 {
        ls[0]
    } else {
        ls[0] + seq!['\n'] + join_lines(ls.drop_first())
    }
}

/// No `'\n'` lies before `first_nl(s, i)`.
proof fn lemma_first_nl_before(s: Seq<char>, i: int)
    requires
        0 <= i <= s.len(),
    ensures
        forall|k: int| i <= k < first_nl(s, i) ==> s[k] != '\n',
    decreases s.len() - i,
{
    if i < s.len() && s[i] != '\n' {
        lemma_first_nl_before(s, i + 1);
    }
}

/// The split of `s` from index `i` on, for `s` without `'\r'`: the lines
/// hold no `'\n'`, there are none exactly when nothing is left, and joined
/// with `'\n'` they give back what is left, but for a final `'\n'`.
proof fn lemma_lines_from_split(s: Seq<char>, i: int)
    requires
        0 <= i <= s.len(),
        has_no(s, '\r'),
    ensures
        ({
            let t = s.subrange(i, s.len() as int);
            let l = lines_from(s, i);
            &&& (l.len() == 0 <==> t.len() == 0)
            &&& forall|k: int| 0 <= k < l.len() ==> has_no(#[trigger] l[k], '\n')
            &&& t.len() > 0 && t.last() == '\n' ==> join_lines(l) + seq!['\n'] == t
            &&& !(t.len() > 0 && t.last() == '\n') ==> join_lines(l) == t
        }),
    decreases s.len() - i,
{
    let t = s.subrange(i, s.len() as int);
    if i < s.len() {
        lemma_first_nl(s, i);
        lemma_first_nl_before(s, i);
        let j = first_nl(s, i);
        let line = s.subrange(i, j);
        assert(has_no(line, '\n'));
        if j >= s.len() {
            assert(line =~= t);
            assert(lines_from(s, i) == seq![t]);
            assert(t.last() == s[s.len() - 1]);
        } else {
            assert(line.len() > 0 ==> line.last() == s[j - 1]);
            assert(strip_cr(line) == line);
            let rest = lines_from(s, j + 1);
            let t2 = s.subrange(j + 1, s.len() as int);
            lemma_lines_from_split(s, j + 1);
            let l = lines_from(s, i);
            assert(l == seq![line] + rest);
            assert(t =~= line + seq!['\n'] + t2);
            assert forall|k: int| 0 <= k < l.len() implies has_no(#[trigger] l[k], '\n') by {
                if k > 0 {
                    assert(l[k] == rest[k - 1]);
                }
            }
            if j + 1 == s.len() {
                assert(rest.len() == 0);
                assert(l =~= seq![line]);
                assert(t.last() == '\n');
                assert(t =~= line + seq!['\n']);
            } else {
                assert(rest.len() > 0);
                assert(l.drop_first() =~= rest);
                assert(join_lines(l) == line + seq!['\n'] + join_lines(rest));
                assert(t.last() == t2.last());
                if t2.last() == '\n' {
                    assert(join_lines(l) + seq!['\n'] =~= line + seq!['\n'] + (join_lines(rest) + seq![
                        '\n',
                    ]));
                } else {
                    assert(join_lines(l) =~= line + seq!['\n'] + join_lines(rest));
                }
            }
        }
    } else {
        assert(t.len() == 0);
    }
}

/// What `lines` gives, stated without its definition, for text without
/// `'\r'`: lines that hold no `'\n'`, none exactly for the empty text, and
/// that joined with `'\n'` give the text back, but for a final `'\n'` (so an
/// empty first line stays, and a final `'\n'` starts no empty line).
pub proof fn lemma_lines_split(s: Seq<char>)
    requires
        has_no(s, '\r'),
    ensures
        lines(s).len() == 0 <==> s.len() == 0,
        forall|k: int| 0 <= k < lines(s).len() ==> has_no(#[trigger] lines(s)[k], '\n'),
        s.len() > 0 && s.last() == '\n' ==> join_lines(lines(s)) + seq!['\n'] == s,
        !(s.len() > 0 && s.last() == '\n') ==> join_lines(lines(s)) == s,
{
    lemma_lines_from_split(s, 0);
    assert(s.subrange(0, s.len() as int) =~= s);
}

/// `trim_end(s)` is a prefix of `s` that does not end in white space.
pub proof fn lemma_trim_end_shape(s: Seq<char>)
    ensures
        trim_end(s).len() <= s.len(),
        trim_end(s) == s.subrange(0, trim_end(s).len() as int),
        trim_end(s).len() > 0 ==> !is_white_space(trim_end(s).last()),
    decreases s.len(),
{
    if s.len() > 0 && is_white_space(s.last()) {
        lemma_trim_end_shape(s.drop_last());
        assert(s.drop_last().subrange(0, trim_end(s).len() as int) =~= s.subrange(
            0,
            trim_end(s).len() as int,
        ));
    } else {
        assert(s.subrange(0, s.len() as int) =~= s);
    }
}

/// The verdict of `check_if_correct` for outputs without `'\r'`: the lines
/// after trimming agree exactly when the two outputs agree once their
/// trailing white space is removed.
pub proof fn lemma_verdict_without_cr(ret: Seq<char>, out: Seq<char>)
    requires
        has_no(ret, '\r'),
        has_no(out, '\r'),
    ensures
        (lines(trim_end(ret)) == lines(trim_end(out))) == (trim_end(ret) == trim_end(out)),
{
    lemma_trim_end_shape(ret);
    lemma_trim_end_shape(out);
    let a = trim_end(ret);
    let b = trim_end(out);
    assert(has_no(a, '\r')) by {
        assert forall|i: int| 0 <= i < a.len() implies a[i] != '\r' by {
            assert(a[i] == ret[i]);
        }
    }
    assert(has_no(b, '\r')) by {
        assert forall|i: int| 0 <= i < b.len() implies b[i] != '\r' by {
            assert(b[i] == out[i]);
        }
    }
    lemma_lines_split(a);
    lemma_lines_split(b);
    assert(is_white_space('\n'));
}

/// The characters of a string.
fn chars_of(s: &str) -> (r: Vec<char>)
    ensures
        r@ == s@,
{
    let mut v: Vec<char> = Vec::new();
    for c in it: s.chars()
        invariant
            it.seq() == s@,
            v@ == it.seq().take(it.index() as int),
    {
        proof {
            assert(it.seq().take(it.index() + 1) =~= v@.push(c));
        }
        v.push(c);
    }
    proof {
        assert(s@.take(s@.len() as int) =~= s@);
    }
    v
}

/// Removes the trailing white space of `v`.
fn trim_end_vec(v: &mut Vec<char>)
    ensures
        final(v)@ == trim_end(old(v)@),
{
    while v.len() > 0 && white_space(v[v.len() - 1])
        invariant
            trim_end(v@) == trim_end(old(v)@),
        decreases v.len(),
    {
        let ghost before = v@;
        v.pop();
        proof {
            assert(v@ == before.drop_last());
        }
    }
}

/// The lines of `s`.
fn split_lines(s: &Vec<char>) -> (r: Vec<Vec<char>>)
    ensures
        r@.map_values(|l: Vec<char>| l@) == lines(s@),
{
    let n = s.len();
    let mut out: Vec<Vec<char>> = Vec::new();
    let mut cur: Vec<char> = Vec::new();
    let mut start: usize = 0;
    let mut i: usize = 0;
    while i < n
        invariant
            n == s@.len(),
            start <= i <= n,
            cur@ == s@.subrange(start as int, i as int),
            first_nl(s@, start as int) == first_nl(s@, i as int),
            lines(s@) == out@.map_values(|l: Vec<char>| l@) + lines_from(s@, start as int),
        decreases n - i,
    {
        if s[i] == '\n' {
            proof {
                assert(first_nl(s@, i as int) == i);
            }
            if cur.len() > 0 && cur[cur.len() - 1] == '\r' {
                cur.pop();
            }
            let ghost o = out@;
            out.push(cur);
            proof {
                assert(out@.map_values(|l: Vec<char>| l@) =~= o.map_values(|l: Vec<char>| l@) + seq![
                    strip_cr(s@.subrange(start as int, i as int)),
                ]);
            }
            cur = Vec::new();
            start = i + 1;
            i += 1;
        } else {
            cur.push(s[i]);
            i += 1;
        }
    }
    if cur.len() > 0 {
        proof {
            assert(first_nl(s@, i as int) == n);
        }
        let ghost o = out@;
        out.push(cur);
        proof {
            assert(out@.map_values(|l: Vec<char>| l@) =~= o.map_values(|l: Vec<char>| l@) + seq![
                s@.subrange(start as int, n as int),
            ]);
        }
    } else {
        proof {
            assert(lines_from(s@, start as int) =~= Seq::<Seq<char>>::empty());
        }
    }
    proof {
        assert(out@.map_values(|l: Vec<char>| l@) + Seq::<Seq<char>>::empty() =~= out@.map_values(
            |l: Vec<char>| l@,
        ));
    }
    out
}

/// Whether two character vectors are equal.
fn chars_eq(a: &Vec<char>, b: &Vec<char>) -> (r: bool)
    ensures
        r == (a@ == b@),
{
    if a.len() != b.len() {
        return false;
    }
    let mut i: usize = 0;
    while i < a.len()
        invariant
            a@.len() == b@.len(),
            i <= a@.len(),
            forall|j: int| 0 <= j < i ==> a@[j] == b@[j],
        decreases a.len() - i,
    {
        if a[i] != b[i] {
            return false;
        }
        i += 1;
    }
    proof {
        assert(a@ =~= b@);
    }
    true
}

/// Whether `ret` and `out` have the same lines once trailing white space is
/// removed: how a program's output is held against the expected output.
pub fn check_if_correct(ret: &str, out: &str) -> (r: bool)
    ensures
        r == (lines(trim_end(ret@)) == lines(trim_end(out@))),
{
    let mut x = chars_of(ret);
    trim_end_vec(&mut x);
    let mut y = chars_of(out);
    trim_end_vec(&mut y);
    let xarr = split_lines(&x);
    let yarr = split_lines(&y);
    let ghost xs = xarr@.map_values(|l: Vec<char>| l@);
    let ghost ys = yarr@.map_values(|l: Vec<char>| l@);
    if xarr.len() != yarr.len() {
        proof {
            assert(xs.len() != ys.len());
        }
        return false;
    }
    let mut i: usize = 0;
    while i < xarr.len()
        invariant
            xarr@.len() == yarr@.len(),
            xs == xarr@.map_values(|l: Vec<char>| l@),
            ys == yarr@.map_values(|l: Vec<char>| l@),
            xs == lines(trim_end(ret@)),
            ys == lines(trim_end(out@)),
            i <= xarr@.len(),
            forall|j: int| 0 <= j < i ==> xs[j] == ys[j],
        decreases xarr.len() - i,
    {
        if !chars_eq(&xarr[i], &yarr[i]) {
            proof {
                assert(xs[i as int] != ys[i as int]);
            }
            return false;
        }
        i += 1;
    }
    proof {
        assert(xs =~= ys);
    }
    true
}

/// The decimal digit character of `d < 10`.
pub open spec fn digit_char(d: nat) -> char {
    (48 + d) as char
}

/// The decimal representation of `n`.
pub open spec fn decimal(n: nat) -> Seq<char>
    decreases n,
{
    if n < 10 {
        seq![digit_char(n)]
    } else {
        decimal(n / 10).push(digit_char(n % 10))
    }
}

/// The one-character string of the digit `d`.
fn digit_str(d: u32) -> (r: &'static str)
    requires
        d < 10,
    ensures
        r@ == seq![digit_char(d as nat)],
{
    proof {
        reveal_strlit("0");
        reveal_strlit("1");
        reveal_strlit("2");
        reveal_strlit("3");
        reveal_strlit("4");
        reveal_strlit("5");
        reveal_strlit("6");
        reveal_strlit("7");
        reveal_strlit("8");
        reveal_strlit("9");
    }
    match d {
        0 => "0",
        1 => "1",
        2 => "2",
        3 => "3",
        4 => "4",
        5 => "5",
        6 => "6",
        7 => "7",
        8 => "8",
        _ => "9",
    }
}

/// Appends the decimal representation of `n` to `s`.
fn push_decimal(s: &mut String, n: u32)
    ensures
        final(s)@ == old(s)@ + decimal(n as nat),
    decreases n,
{
    if n >= 10 {
        push_decimal(s, n / 10);
        let d = digit_str(n % 10);
        s.append(d);
        proof {
            assert(decimal(n as nat) == decimal((n / 10) as nat).push(digit_char((n % 10) as nat)));
            assert(old(s)@ + decimal((n / 10) as nat) + seq![digit_char((n % 10) as nat)] =~= old(s)@
                + decimal(n as nat));
        }
    } else {
        let d = digit_str(n);
        s.append(d);
    }
}

/// `std::str::from_utf8` on `bytes`, copied into a `String`; on invalid
/// UTF-8 the error is `"{prefix}: {e}"` with `e` std's description of the
/// decoding error, whose text is not stated here.
#[verifier::external_body]
fn utf8_or_message(bytes: &[u8], prefix: &str) -> (r: Result<String, String>)
    ensures
        r is Ok <==> valid_utf8(bytes@),
        r matches Ok(s) ==> s@ == decode_utf8(bytes@),
{
    match std::str::from_utf8(bytes) {
        Ok(s) => Ok(s.to_string()),
        Err(e) => Err(format!("{}: {}", prefix, e)),
    }
}

/// What running a solution gives, from what it wrote: its standard output
/// as `Ok` when it wrote nothing to standard error, else its standard error
/// as `Err`; either must be valid UTF-8, else an `Err` that says which one
/// was not.
pub fn exec_outcome(stdout: &[u8], stderr: &[u8]) -> (r: Result<String, String>)
    ensures
        stderr@.len() == 0 && valid_utf8(stdout@) ==> (r matches Ok(o) && o@ == decode_utf8(stdout@)),
        stderr@.len() == 0 && !valid_utf8(stdout@) ==> r is Err,
        stderr@.len() > 0 ==> r is Err,
        stderr@.len() > 0 && valid_utf8(stderr@) ==> (r matches Err(e) && e@ == decode_utf8(stderr@)),
{
    if stderr.len() == 0 {
        utf8_or_message(stdout, "stdout is not utf8")
    } else {
        match utf8_or_message(stderr, "stderr is not utf8") {
            Ok(e) => Err(e),
            Err(m) => Err(m),
        }
    }
}

/// `scraper::Html`, a parsed HTML document.
#[verifier::external_type_specification]
#[verifier::external_body]
pub struct ExHtml(scraper::Html);

/// A problem page: its HTML text and the document parsed from it.
pub struct ProblemPage {
    source: String,
    html: scraper::Html,
}

impl ProblemPage {
    /// The HTML text of the page.
    pub closed spec fn source(&self) -> Seq<char> {
        self.source@
    }
}

/// The inner HTML of the first element that the CSS selector `selector`
/// matches in the HTML document parsed from `document`, taking the elements in
/// the order in which the parser created their nodes (which can differ from
/// document order where the parser moves nodes); `None` when no element
/// matches or the selector does not parse.
pub uninterp spec fn first_inner_html(document: Seq<char>, selector: Seq<char>) -> Option<Seq<char>>;

/// Parses `text` with `scraper::Html::parse_document`; the page keeps the text.
/// Nothing is said of the parsed document but that it is the one parsed from
/// that text.
#[verifier::external_body]
fn parse_page(text: &str) -> (p: ProblemPage)
    ensures
        p.source() == text@,
{
    ProblemPage { source: text.to_string(), html: scraper::Html::parse_document(text) }
}

/// Parses the CSS selector with `scraper::Selector::parse`, selects with
/// `scraper::Html::select` and serialises the first match with
/// `scraper::ElementRef::inner_html`: the result is `first_inner_html` of the
/// page's text and the selector.
#[verifier::external_body]
fn select_inner_html(page: &ProblemPage, selector: &str) -> (r: Option<String>)
    ensures
        opt_view(r) == first_inner_html(page.source(), selector@),
{
    let query = scraper::Selector::parse(selector).ok()?;
    match page.html.select(&query).next() {
        Some(element) => Some(element.inner_html()),
        None => None,
    }
}

/// The problem page whose HTML text is `text`, parsed as a document.
pub fn parse_html(text: &str) -> (p: ProblemPage)
    ensures
        p.source() == text@,
{
    parse_page(text)
}

/// `"#sample-"`.
pub open spec fn sample_prefix() -> Seq<char> {
    seq!['#', 's', 'a', 'm', 'p', 'l', 'e', '-']
}

/// The CSS selector of sample `id` of the given kind: `#sample-{kind}-{id}`.
pub open spec fn sample_selector(kind: Seq<char>, id: nat) -> Seq<char> {
    sample_prefix() + kind + seq!['-'] + decimal(id)
}

/// The largest sample number that is looked up (the range of `i32`).
pub open spec fn max_sample_id() -> nat {
    0x7fff_ffff
}

/// The samples of the given kind from number `id` on, at most `left` of them:
/// each is the inner HTML of the element with the id `sample-{kind}-{id}`,
/// up to the first number that has none.
pub open spec fn samples_from(doc: Seq<char>, kind: Seq<char>, id: nat, left: nat) -> Seq<Seq<char>>
    decreases left,
{
    if left == 0 {
        Seq::empty()
    } else {
        match first_inner_html(doc, sample_selector(kind, id)) {
            None => Seq::empty(),
            Some(h) => seq![h] + samples_from(doc, kind, id + 1, (left - 1) as nat),
        }
    }
}

/// The samples of the given kind of a problem page, numbered from 1.
pub open spec fn samples(doc: Seq<char>, kind: Seq<char>) -> Seq<Seq<char>> {
    samples_from(doc, kind, 1, max_sample_id())
}

/// The selector `#sample-{kind}-{id}`.
fn sample_query(kind: &str, id: u32) -> (r: String)
    ensures
        r@ == sample_selector(kind@, id as nat),
{
    proof {
        reveal_strlit("#sample-");
        reveal_strlit("-");
    }
    let mut q = "#sample-".to_string();
    q.append(kind);
    q.append("-");
    push_decimal(&mut q, id);
    q
}

/// The samples of the given kind (`"input"` or `"output"`) of a page.
fn boj_samples_of(page: &ProblemPage, kind: &str) -> (r: Vec<String>)
    ensures
        r@.map_values(|h: String| h@) == samples(page.source(), kind@),
{
    let mut out: Vec<String> = Vec::new();
    let mut id: u32 = 1;
    while id <= 0x7fff_ffff
        invariant
            1 <= id <= 0x8000_0000,
            samples(page.source(), kind@) == out@.map_values(|h: String| h@) + samples_from(
                page.source(),
                kind@,
                id as nat,
                (0x8000_0000 - id) as nat,
            ),
        decreases 0x8000_0000 - id,
    {
        let query = sample_query(kind, id);
        match select_inner_html(page, query.as_str()) {
            None => {
                proof {
                    assert(out@.map_values(|h: String| h@) + Seq::<Seq<char>>::empty() =~= out@.map_values(
                        |h: String| h@,
                    ));
                }
                return out;
            },
            Some(h) => {
                let ghost o = out@;
                out.push(h);
                proof {
                    assert(out@.map_values(|h: String| h@) =~= o.map_values(|h: String| h@) + seq![h@]);
                }
            },
        }
        id += 1;
    }
    proof {
        assert(out@.map_values(|h: String| h@) + Seq::<Seq<char>>::empty() =~= out@.map_values(
            |h: String| h@,
        ));
    }
    out
}

/// The sample inputs of a problem page.
pub fn boj_sample_inputs(page: &ProblemPage) -> (r: Vec<String>)
    ensures
        r@.map_values(|h: String| h@) == samples(page.source(), seq!['i', 'n', 'p', 'u', 't']),
{
    proof {
        reveal_strlit("input");
        assert("input"@ =~= seq!['i', 'n', 'p', 'u', 't']);
    }
    boj_samples_of(page, "input")
}

/// The sample outputs of a problem page.
pub fn boj_sample_outputs(page: &ProblemPage) -> (r: Vec<String>)
    ensures
        r@.map_values(|h: String| h@) == samples(page.source(), seq!['o', 'u', 't', 'p', 'u', 't']),
{
    proof {
        reveal_strlit("output");
        assert("output"@ =~= seq!['o', 'u', 't', 'p', 'u', 't']);
    }
    boj_samples_of(page, "output")
}

/// Returns a vector of pairs of sample inputs and outputs.
///
/// The pairs of the `i`-th sample input and output of the problem page whose
/// HTML text is `problem_page`, for as many as both exist.
pub fn get_boj_samples(problem_page: &str) -> (r: Vec<(String, String)>)
    ensures
        ({
            let ins = samples(problem_page@, seq!['i', 'n', 'p', 'u', 't']);
            let outs = samples(problem_page@, seq!['o', 'u', 't', 'p', 'u', 't']);
            &&& r@.len() == (if ins.len() < outs.len() {
                ins.len()
            } else {
                outs.len()
            })
            &&& forall|i: int|
                #![trigger r@[i]]
                0 <= i < r@.len() ==> r@[i].0@ == ins[i] && r@[i].1@ == outs[i]
        }),
{
    let page = parse_html(problem_page);
    let ins = boj_sample_inputs(&page);
    let outs = boj_sample_outputs(&page);
    let n = if ins.len() < outs.len() {
        ins.len()
    } else {
        outs.len()
    };
    let mut pairs: Vec<(String, String)> = Vec::new();
    let mut i: usize = 0;
    while i < n
        invariant
            n <= ins@.len(),
            n <= outs@.len(),
            i <= n,
            pairs@.len() == i,
            forall|j: int|
                #![trigger pairs@[j]]
                0 <= j < i ==> pairs@[j].0@ == ins@[j]@ && pairs@[j].1@ == outs@[j]@,
        decreases n - i,
    {
        pairs.push((ins[i].clone(), outs[i].clone()));
        i += 1;
    }
    proof {
        let insv = ins@.map_values(|h: String| h@);
        let outsv = outs@.map_values(|h: String| h@);
        assert(insv.len() == ins@.len() && outsv.len() == outs@.len());
        assert(insv == samples(problem_page@, seq!['i', 'n', 'p', 'u', 't']));
        assert(outsv == samples(problem_page@, seq!['o', 'u', 't', 'p', 'u', 't']));
        assert(pairs@.len() == n);
        assert forall|j: int| #![trigger pairs@[j]] 0 <= j < pairs@.len() implies pairs@[j].0@ == insv[j]
            && pairs@[j].1@ == outsv[j] by {
            assert(insv[j] == ins@[j]@);
            assert(outsv[j] == outs@[j]@);
        }
    }
    pairs
}

} // verus!
