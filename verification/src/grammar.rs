//! The grammar model: productions, the textual production-list format, and
//! the classification of symbols into terminals and nonterminals.
//!
//! A grammar is written one production per line as `LHS -> RHS`. The left
//! side contributes exactly one symbol (the first character of the trimmed
//! line); every non-whitespace character of the right side is one symbol.
//! Blank lines are skipped. A non-blank line that does not contain exactly
//! one `->`, or whose left side is empty, is rejected.

use vstd::prelude::*;
use crate::text::push_char;
use crate::text::str_to_chars;
use crate::text::chars_to_string;
use crate::parser::Parser;
use vstd::string::StringExecFns;

verus! {

/// A rewrite rule: one symbol on the left, a sequence of symbols on the
/// right.
pub struct Production {
    pub left: char,
    pub right: Vec<char>,
}

/// The mathematical image of a production list: `(left, right)` pairs.
pub open spec fn prod_views(ps: Seq<Production>) -> Seq<(char, Seq<char>)> {
    Seq::new(ps.len(), |i: int| (ps[i].left, ps[i].right@))
}

/// Whether a character counts as whitespace: the White_Space code points.
pub open spec fn is_space(c: char) -> bool {
    let u = c as u32;
    (9 <= u && u <= 13) || u == 32 || u == 0x85 || u == 0xA0 || u == 0x1680 || (0x2000 <= u && u
        <= 0x200A) || u == 0x2028 || u == 0x2029 || u == 0x202F || u == 0x205F || u == 0x3000
}

/// Executable whitespace test, matching [`is_space`].
pub fn is_space_char(c: char) -> (r: bool)
    ensures
        r == is_space(c),
{
    let u = c as u32;
    (9 <= u && u <= 13) || u == 32 || u == 0x85 || u == 0xA0 || u == 0x1680 || (0x2000 <= u && u
        <= 0x200A) || u == 0x2028 || u == 0x2029 || u == 0x202F || u == 0x205F || u == 0x3000
}

/// Splits the remaining text on `'\n'`, the characters read so far on the
/// current line held in `cur`.
pub open spec fn split_lines_from(s: Seq<char>, cur: Seq<char>) -> Seq<Seq<char>>
    decreases s.len(),
{
    if s.len() == 0 {
        seq![cur]
    } else if s[0] == '\n' {
        seq![cur] + split_lines_from(s.drop_first(), Seq::empty())
    } else {
        split_lines_from(s.drop_first(), cur.push(s[0]))
    }
}

/// The lines of a text: the segments between `'\n'` characters.
pub open spec fn split_lines(s: Seq<char>) -> Seq<Seq<char>> {
    split_lines_from(s, Seq::empty())
}

/// The suffix of a line after its leading whitespace.
pub open spec fn trim_start(l: Seq<char>) -> Seq<char>
    decreases l.len(),
{
    if l.len() > 0 && is_space(l[0]) {
        trim_start(l.drop_first())
    } else {
        l
    }
}

/// The prefix of a line before its trailing whitespace.
pub open spec fn trim_end(l: Seq<char>) -> Seq<char>
    decreases l.len(),
{
    if l.len() > 0 && is_space(l.last()) {
        trim_end(l.drop_last())
    } else {
        l
    }
}

/// The line with surrounding whitespace removed.
pub open spec fn trim(l: Seq<char>) -> Seq<char> {
    trim_end(trim_start(l))
}

/// The line with every whitespace character removed.
pub open spec fn strip_spaces(l: Seq<char>) -> Seq<char>
    decreases l.len(),
{
    if l.len() == 0 {
        Seq::empty()
    } else if is_space(l[0]) {
        strip_spaces(l.drop_first())
    } else {
        seq![l[0]] + strip_spaces(l.drop_first())
    }
}

/// Whether a `->` separator starts at position `i` of the line.
pub open spec fn arrow_at(l: Seq<char>, i: int) -> bool {
    0 <= i && i + 1 < l.len() && l[i] == '-' && l[i + 1] == '>'
}

/// How many `->` separators the line holds.
pub open spec fn arrow_count(l: Seq<char>) -> nat
    decreases l.len(),
{
    if l.len() < 2 {
        0
    } else {
        (if l[0] == '-' && l[1] == '>' {
            1nat
        } else {
            0nat
        }) + arrow_count(l.drop_first())
    }
}

/// The position of the first `->` separator, or `-1` if there is none.
pub open spec fn first_arrow(l: Seq<char>) -> int
    decreases l.len(),
{
    if l.len() < 2 {
        -1
    } else if l[0] == '-' && l[1] == '>' {
        0
    } else {
        let r = first_arrow(l.drop_first());
        if r < 0 {
            -1
        } else {
            r + 1
        }
    }
}

/// `first_arrow` names the least separator position, when one exists.
pub proof fn lemma_first_arrow(l: Seq<char>)
    ensures
        arrow_count(l) > 0 ==> arrow_at(l, first_arrow(l)) && (forall|j: int|
            0 <= j < first_arrow(l) ==> !arrow_at(l, j)),
        arrow_count(l) == 0 ==> first_arrow(l) == -1 && (forall|j: int| !arrow_at(l, j)),
    decreases l.len(),
{
    if l.len() < 2 {
        assert(forall|j: int| !arrow_at(l, j));
    } else {
        lemma_first_arrow(l.drop_first());
        let d = l.drop_first();
        assert(forall|j: int| 1 <= j ==> arrow_at(l, j) == arrow_at(d, j - 1));
        if l[0] == '-' && l[1] == '>' {
            assert(arrow_at(l, 0));
        } else {
            assert(!arrow_at(l, 0));
            assert(arrow_count(l) == arrow_count(d));
        }
    }
}

/// A line is blank when nothing is left after trimming.
pub open spec fn line_blank(l: Seq<char>) -> bool {
    trim(l).len() == 0
}

/// A non-blank line is well formed when it holds exactly one `->` and the
/// left side is not empty.
pub open spec fn line_wf(l: Seq<char>) -> bool {
    !line_blank(l) ==> arrow_count(trim(l)) == 1 && first_arrow(trim(l)) > 0
}

/// The production a well-formed non-blank line denotes: the first character
/// of the trimmed line on the left, the non-whitespace characters after the
/// separator on the right.
pub open spec fn line_prod(l: Seq<char>) -> (char, Seq<char>) {
    let t = trim(l);
    (t[0], strip_spaces(t.subrange(first_arrow(t) + 2, t.len() as int)))
}

/// The productions of a line sequence, blank lines skipped.
pub open spec fn prods_of_lines(ls: Seq<Seq<char>>) -> Seq<(char, Seq<char>)>
    decreases ls.len(),
{
    if ls.len() == 0 {
        Seq::empty()
    } else if line_blank(ls[0]) {
        prods_of_lines(ls.drop_first())
    } else {
        seq![line_prod(ls[0])] + prods_of_lines(ls.drop_first())
    }
}

/// Whether every line of the text is well formed.
pub open spec fn text_wf(s: Seq<char>) -> bool {
    forall|i: int| 0 <= i < split_lines(s).len() ==> line_wf(#[trigger] split_lines(s)[i])
}

/// The production list a well-formed text denotes.
pub open spec fn reducer_of(s: Seq<char>) -> Seq<(char, Seq<char>)> {
    prods_of_lines(split_lines(s))
}

/// The error text for a line that is not well formed.
pub open spec fn line_error(l: Seq<char>) -> Seq<char> {
    if arrow_count(trim(l)) != 1 {
        "Invalid reducer format: "@ + l
    } else {
        "Invalid left-hand side"@
    }
}

/// The position of the first line that is not well formed, or `-1`.
pub open spec fn first_bad_line(ls: Seq<Seq<char>>) -> int
    decreases ls.len(),
{
    if ls.len() == 0 {
        -1
    } else if !line_wf(ls[0]) {
        0
    } else {
        let r = first_bad_line(ls.drop_first());
        if r < 0 {
            -1
        } else {
            r + 1
        }
    }
}

/// A bad line with only good lines before it is the first bad line.
pub proof fn lemma_first_bad_line(ls: Seq<Seq<char>>, k: int)
    requires
        0 <= k < ls.len(),
        !line_wf(ls[k]),
        forall|j: int| 0 <= j < k ==> line_wf(#[trigger] ls[j]),
    ensures
        first_bad_line(ls) == k,
    decreases ls.len(),
{
    if k == 0 {
    } else {
        assert(line_wf(ls[0]));
        let d = ls.drop_first();
        assert(d[k - 1] == ls[k]);
        assert(forall|j: int| 0 <= j < k - 1 ==> d[j] == ls[j + 1]);
        lemma_first_bad_line(d, k - 1);
    }
}

/// The mathematical image of a `(left, right)` reducer entry list.
pub open spec fn reducer_views(v: Seq<(char, String)>) -> Seq<(char, Seq<char>)> {
    Seq::new(v.len(), |i: int| (v[i].0, v[i].1@))
}

/// The views of a sequence of character vectors.
pub open spec fn views_of(v: Seq<Vec<char>>) -> Seq<Seq<char>> {
    Seq::new(v.len(), |i: int| v[i]@)
}

/// Cuts a character vector into its lines.
fn split_lines_exec(chars: &Vec<char>) -> (r: Vec<Vec<char>>)
    ensures
        views_of(r@) == split_lines(chars@),
{
    let n = chars.len();
    let mut out: Vec<Vec<char>> = Vec::new();
    let mut cur: Vec<char> = Vec::new();
    let mut i: usize = 0;
    proof {
        assert(chars@.subrange(0, n as int) =~= chars@);
        assert(views_of(out@) =~= Seq::<Seq<char>>::empty());
        assert(split_lines(chars@) =~= views_of(out@) + split_lines_from(
            chars@.subrange(0, n as int),
            cur@,
        ));
    }
    while i < n
        invariant
            i <= n,
            n == chars@.len(),
            split_lines(chars@) == views_of(out@) + split_lines_from(
                chars@.subrange(i as int, n as int),
                cur@,
            ),
        decreases n - i,
    {
        let ghost pre = chars@.subrange(i as int, n as int);
        proof {
            assert(pre.drop_first() =~= chars@.subrange(i as int + 1, n as int));
        }
        let c = chars[i];
        if c == '\n' {
            out.push(cur);
            cur = Vec::new();
            proof {
                assert(views_of(out@) =~= views_of(out@.drop_last()) + seq![out@.last()@]);
                assert(split_lines(chars@) =~= views_of(out@) + split_lines_from(
                    chars@.subrange(i as int + 1, n as int),
                    cur@,
                ));
            }
        } else {
            cur.push(c);
        }
        i = i + 1;
    }
    proof {
        assert(chars@.subrange(n as int, n as int) =~= Seq::<char>::empty());
    }
    out.push(cur);
    proof {
        assert(views_of(out@) =~= views_of(out@.drop_last()) + seq![out@.last()@]);
        assert(views_of(out@) =~= split_lines(chars@));
    }
    out
}

/// Removes leading and trailing whitespace from a character vector.
fn trim_chars(l: &Vec<char>) -> (r: Vec<char>)
    ensures
        r@ == trim(l@),
{
    let n = l.len();
    let mut a: usize = 0;
    proof {
        assert(l@.subrange(0, n as int) =~= l@);
    }
    while a < n && is_space_char(l[a])
        invariant
            a <= n,
            n == l@.len(),
            trim_start(l@) == trim_start(l@.subrange(a as int, n as int)),
        decreases n - a,
    {
        proof {
            assert(l@.subrange(a as int, n as int).drop_first() =~= l@.subrange(
                a as int + 1,
                n as int,
            ));
        }
        a = a + 1;
    }
    proof {
        if a < n {
            assert(trim_start(l@.subrange(a as int, n as int)) == l@.subrange(a as int, n as int));
        } else {
            assert(l@.subrange(a as int, n as int) =~= Seq::<char>::empty());
        }
    }
    let mut b: usize = n;
    while b > a && is_space_char(l[b - 1])
        invariant
            a <= b <= n,
            n == l@.len(),
            trim_start(l@) == l@.subrange(a as int, n as int),
            trim_end(l@.subrange(a as int, n as int)) == trim_end(
                l@.subrange(a as int, b as int),
            ),
        decreases b,
    {
        proof {
            let cut = l@.subrange(a as int, b as int);
            assert(cut.last() == l@[b as int - 1]);
            assert(cut.drop_last() =~= l@.subrange(a as int, b as int - 1));
        }
        b = b - 1;
    }
    proof {
        if b > a {
            assert(trim_end(l@.subrange(a as int, b as int)) == l@.subrange(a as int, b as int));
        } else {
            assert(l@.subrange(a as int, b as int) =~= Seq::<char>::empty());
        }
    }
    let mut r: Vec<char> = Vec::new();
    let mut i: usize = a;
    while i < b
        invariant
            a <= i <= b <= n,
            n == l@.len(),
            r@ == l@.subrange(a as int, i as int),
        decreases b - i,
    {
        r.push(l[i]);
        i = i + 1;
        proof {
            assert(r@ =~= l@.subrange(a as int, i as int));
        }
    }
    proof {
        assert(r@ == trim(l@));
    }
    r
}

/// Counts the `->` separators of a line and finds the first one.
fn arrow_scan(t: &Vec<char>) -> (r: (usize, usize))
    ensures
        r.0 == arrow_count(t@),
        arrow_count(t@) > 0 ==> r.1 == first_arrow(t@),
{
    let n = t.len();
    let mut count: usize = 0;
    let mut first: usize = 0;
    let mut i: usize = 0;
    proof {
        assert(t@.subrange(0, n as int) =~= t@);
    }
    while i < n
        invariant
            i <= n,
            n == t@.len(),
            count <= i,
            count + arrow_count(t@.subrange(i as int, n as int)) == arrow_count(t@),
            count > 0 ==> arrow_at(t@, first as int) && (forall|j: int|
                0 <= j < first ==> !arrow_at(t@, j)),
            count == 0 ==> (forall|j: int| 0 <= j < i ==> !arrow_at(t@, j)),
        decreases n - i,
    {
        proof {
            let suf = t@.subrange(i as int, n as int);
            assert(suf.drop_first() =~= t@.subrange(i as int + 1, n as int));
            if suf.len() >= 2 {
                assert(suf[0] == t@[i as int]);
                assert(suf[1] == t@[i as int + 1]);
            }
        }
        if i + 1 < n && t[i] == '-' && t[i + 1] == '>' {
            if count == 0 {
                first = i;
            }
            count = count + 1;
        } else {
            proof {
                assert(!arrow_at(t@, i as int));
            }
        }
        i = i + 1;
    }
    proof {
        assert(t@.subrange(n as int, n as int) =~= Seq::<char>::empty());
        lemma_first_arrow(t@);
    }
    (count, first)
}

/// Collects the non-whitespace characters of `l[from..]`.
fn strip_from(l: &Vec<char>, from: usize) -> (r: Vec<char>)
    requires
        from <= l@.len(),
    ensures
        r@ == strip_spaces(l@.subrange(from as int, l@.len() as int)),
{
    let n = l.len();
    let mut r: Vec<char> = Vec::new();
    let mut i: usize = from;
    proof {
        assert(strip_spaces(l@.subrange(from as int, n as int)) =~= r@ + strip_spaces(
            l@.subrange(from as int, n as int),
        ));
    }
    while i < n
        invariant
            from <= i <= n,
            n == l@.len(),
            strip_spaces(l@.subrange(from as int, n as int)) == r@ + strip_spaces(
                l@.subrange(i as int, n as int),
            ),
        decreases n - i,
    {
        proof {
            let suf = l@.subrange(i as int, n as int);
            assert(suf[0] == l@[i as int]);
            assert(suf.drop_first() =~= l@.subrange(i as int + 1, n as int));
        }
        let c = l[i];
        if !is_space_char(c) {
            r.push(c);
        }
        i = i + 1;
        proof {
            assert(strip_spaces(l@.subrange(from as int, n as int)) =~= r@ + strip_spaces(
                l@.subrange(i as int, n as int),
            ));
        }
    }
    proof {
        assert(l@.subrange(n as int, n as int) =~= Seq::<char>::empty());
        assert(r@ =~= strip_spaces(l@.subrange(from as int, n as int)));
    }
    r
}

/// Reads a production list from text, one `LHS -> RHS` production per line.
///
/// Succeeds exactly on well-formed text and returns the productions in file
/// order; fails on the first bad line with an error naming it.
pub fn from_reducer_string(content: &str) -> (r: Result<Vec<(char, String)>, String>)
    ensures
        r is Ok <==> text_wf(content@),
        r matches Ok(v) ==> reducer_views(v@) == reducer_of(content@),
        r matches Err(e) ==> exists|k: int|
            0 <= k < split_lines(content@).len() && !line_wf(#[trigger] split_lines(content@)[k])
                && e@ == line_error(split_lines(content@)[k]) && (forall|j: int|
                0 <= j < k ==> line_wf(split_lines(content@)[j])),
{
    let chars = str_to_chars(content);
    let lines = split_lines_exec(&chars);
    let ghost ls = split_lines(content@);
    let mut reducer: Vec<(char, String)> = Vec::new();
    let mut i: usize = 0;
    proof {
        assert(ls.subrange(0, 0) =~= Seq::<Seq<char>>::empty());
        assert(reducer_views(reducer@) =~= prods_of_lines(ls.subrange(0, 0)));
    }
    while i < lines.len()
        invariant
            i <= lines@.len(),
            views_of(lines@) == ls,
            ls == split_lines(content@),
            forall|j: int| 0 <= j < i ==> line_wf(#[trigger] ls[j]),
            reducer_views(reducer@) == prods_of_lines(ls.subrange(0, i as int)),
        decreases lines@.len() - i,
    {
        let ghost l = ls[i as int];
        let line = &lines[i];
        let t = trim_chars(line);
        if t.len() > 0 {
            let (count, first) = arrow_scan(&t);
            if count != 1 {
                let mut msg = String::from_str("Invalid reducer format: ");
                let rest = chars_to_string(line);
                msg.append(rest.as_str());
                proof {
                    assert(!line_wf(l));
                    assert(msg@ == line_error(l));
                }
                return Err(msg);
            }
            if first == 0 {
                proof {
                    assert(!line_wf(l));
                }
                return Err(String::from_str("Invalid left-hand side"));
            }
            let left = t[0];
            proof {
                lemma_first_arrow(t@);
                assert(arrow_at(t@, first as int));
            }
            let rhs_chars = strip_from(&t, first + 2);
            let right = chars_to_string(&rhs_chars);
            reducer.push((left, right));
            proof {
                assert(line_wf(l));
                assert((left, right@) == line_prod(l));
                assert(ls.subrange(0, i as int + 1).drop_last() =~= ls.subrange(0, i as int));
                lemma_prods_of_lines_push(ls.subrange(0, i as int + 1));
                assert(reducer_views(reducer@) =~= prods_of_lines(ls.subrange(0, i as int + 1)));
            }
        } else {
            proof {
                assert(line_wf(l));
                assert(ls.subrange(0, i as int + 1).drop_last() =~= ls.subrange(0, i as int));
                lemma_prods_of_lines_push(ls.subrange(0, i as int + 1));
                assert(reducer_views(reducer@) =~= prods_of_lines(ls.subrange(0, i as int + 1)));
            }
        }
        i = i + 1;
    }
    proof {
        assert(ls.subrange(0, ls.len() as int) =~= ls);
    }
    Ok(reducer)
}

/// Processing one more line appends its production, or nothing for a blank.
proof fn lemma_prods_of_lines_push(ls: Seq<Seq<char>>)
    requires
        ls.len() > 0,
    ensures
        prods_of_lines(ls) == if line_blank(ls.last()) {
            prods_of_lines(ls.drop_last())
        } else {
            prods_of_lines(ls.drop_last()) + seq![line_prod(ls.last())]
        },
    decreases ls.len(),
{
    if ls.len() == 1 {
        assert(ls.drop_last() =~= Seq::<Seq<char>>::empty());
        assert(ls.drop_first() =~= Seq::<Seq<char>>::empty());
        if !line_blank(ls[0]) {
            assert(prods_of_lines(ls) =~= prods_of_lines(ls.drop_last()) + seq![
                line_prod(ls.last()),
            ]);
        }
    } else {
        lemma_prods_of_lines_push(ls.drop_first());
        assert(ls.drop_first().drop_last() =~= ls.drop_last().drop_first());
        assert(ls.drop_first().last() == ls.last());
        assert(ls.drop_last()[0] == ls[0]);
        if line_blank(ls[0]) {
            assert(prods_of_lines(ls) == prods_of_lines(ls.drop_first()));
        } else {
            if !line_blank(ls.last()) {
                assert(prods_of_lines(ls) =~= prods_of_lines(ls.drop_last()) + seq![
                    line_prod(ls.last()),
                ]);
            }
        }
    }
}

/// The left-hand symbols of a production list, in order, repeats kept.
pub open spec fn lefts_of(r: Seq<(char, Seq<char>)>) -> Seq<char> {
    Seq::new(r.len(), |i: int| r[i].0)
}

/// All right-hand symbols of a production list, in order, repeats kept.
pub open spec fn rhs_concat(r: Seq<(char, Seq<char>)>) -> Seq<char>
    decreases r.len(),
{
    if r.len() == 0 {
        Seq::empty()
    } else {
        r[0].1 + rhs_concat(r.drop_first())
    }
}

/// The symbol stream with repeats and already-seen symbols removed, keeping
/// first occurrences in order.
pub open spec fn dedup_from(s: Seq<char>, seen: Set<char>) -> Seq<char>
    decreases s.len(),
{
    if s.len() == 0 {
        Seq::empty()
    } else if seen.contains(s[0]) {
        dedup_from(s.drop_first(), seen)
    } else {
        seq![s[0]] + dedup_from(s.drop_first(), seen.insert(s[0]))
    }
}

/// The nonterminals of a grammar: the distinct left-hand symbols, in order
/// of first occurrence.
pub open spec fn nonterminals_of(r: Seq<(char, Seq<char>)>) -> Seq<char> {
    dedup_from(lefts_of(r), Set::empty())
}

/// The terminals of a grammar: the distinct right-hand symbols that are not
/// nonterminals, in order of first occurrence.
pub open spec fn terminals_of(r: Seq<(char, Seq<char>)>) -> Seq<char> {
    dedup_from(rhs_concat(r), lefts_of(r).to_set())
}

/// A sequence extended by one element holds exactly one more member.
pub proof fn lemma_push_to_set(s: Seq<char>, x: char)
    ensures
        s.push(x).to_set() == s.to_set().insert(x),
{
    assert forall|y: char| s.push(x).to_set().contains(y) implies s.to_set().insert(
        x,
    ).contains(y) by {
        let i = choose|i: int| 0 <= i < s.push(x).len() && s.push(x)[i] == y;
        if i < s.len() {
            assert(s[i] == y);
        }
    }
    assert forall|y: char| s.to_set().insert(x).contains(y) implies s.push(
        x,
    ).to_set().contains(y) by {
        if y == x {
            assert(s.push(x)[s.len() as int] == y);
        } else {
            let i = choose|i: int| 0 <= i < s.len() && s[i] == y;
            assert(s.push(x)[i] == y);
        }
    }
    assert(s.push(x).to_set() =~= s.to_set().insert(x));
}

/// What `dedup_from` yields: no repeats, and exactly the unseen symbols of
/// the stream.
pub proof fn lemma_dedup_from(s: Seq<char>, seen: Set<char>)
    ensures
        dedup_from(s, seen).no_duplicates(),
        forall|c: char|
            #![trigger dedup_from(s, seen).contains(c)]
            #![trigger s.contains(c)]
            dedup_from(s, seen).contains(c) <==> (s.contains(c) && !seen.contains(c)),
    decreases s.len(),
{
    if s.len() > 0 {
        let d = s.drop_first();
        assert forall|c: char| d.contains(c) implies s.contains(c) by {
            let i = choose|i: int| 0 <= i < d.len() && d[i] == c;
            assert(s[i + 1] == c);
        }
        assert forall|c: char| s.contains(c) implies c == s[0] || d.contains(c) by {
            let i = choose|i: int| 0 <= i < s.len() && s[i] == c;
            if i > 0 {
                assert(d[i - 1] == c);
            }
        }
        if seen.contains(s[0]) {
            lemma_dedup_from(d, seen);
            assert forall|c: char| dedup_from(s, seen).contains(c) implies (s.contains(c)
                && !seen.contains(c)) by {
                assert(dedup_from(d, seen).contains(c));
            }
        } else {
            lemma_dedup_from(d, seen.insert(s[0]));
            let rest = dedup_from(d, seen.insert(s[0]));
            let out = seq![s[0]] + rest;
            assert(out[0] == s[0]);
            assert(forall|i: int| 0 <= i < rest.len() ==> out[i + 1] == rest[i]);
            assert forall|c: char| out.contains(c) implies c == s[0] || rest.contains(c) by {
                let i = choose|i: int| 0 <= i < out.len() && out[i] == c;
                if i > 0 {
                    assert(rest[i - 1] == c);
                }
            }
            assert forall|c: char| (s.contains(c) && !seen.contains(c)) implies out.contains(
                c,
            ) by {
                if c == s[0] {
                    assert(out[0] == c);
                } else {
                    assert(d.contains(c) && !seen.insert(s[0]).contains(c));
                    assert(rest.contains(c));
                    let i = choose|i: int| 0 <= i < rest.len() && rest[i] == c;
                    assert(out[i + 1] == c);
                }
            }
            assert(!rest.contains(s[0]));
            assert(out.no_duplicates()) by {
                assert forall|i: int, j: int| 0 <= i < j < out.len() implies out[i] != out[j] by {
                    if i == 0 {
                        assert(out[j] == rest[j - 1]);
                        assert(rest.contains(rest[j - 1]));
                    } else {
                        assert(out[i] == rest[i - 1] && out[j] == rest[j - 1]);
                    }
                }
            }
        }
    }
}

/// Whether the vector holds the character.
pub fn contains_char(v: &Vec<char>, c: char) -> (r: bool)
    ensures
        r == v@.contains(c),
{
    let mut i: usize = 0;
    while i < v.len()
        invariant
            i <= v@.len(),
            forall|j: int| 0 <= j < i ==> v@[j] != c,
        decreases v@.len() - i,
    {
        if v[i] == c {
            return true;
        }
        i = i + 1;
    }
    false
}

/// First-occurrence deduplication of a symbol stream, skipping anything in
/// `seen0`.
fn dedup_push(stream: &Vec<char>, seen0: &Vec<char>) -> (out: Vec<char>)
    ensures
        out@ == dedup_from(stream@, seen0@.to_set()),
{
    let ghost s0: Set<char> = seen0@.to_set();
    let mut out: Vec<char> = Vec::new();
    let mut i: usize = 0;
    proof {
        assert(stream@.subrange(0, stream@.len() as int) =~= stream@);
        assert(out@ + dedup_from(stream@, s0) =~= dedup_from(stream@, s0));
        assert(s0.union(out@.to_set()) =~= s0);
    }
    while i < stream.len()
        invariant
            i <= stream@.len(),
            s0 == seen0@.to_set(),
            dedup_from(stream@, s0) == out@ + dedup_from(
                stream@.subrange(i as int, stream@.len() as int),
                s0.union(out@.to_set()),
            ),
        decreases stream@.len() - i,
    {
        let c = stream[i];
        let ghost suf = stream@.subrange(i as int, stream@.len() as int);
        proof {
            assert(suf[0] == c);
            assert(suf.drop_first() =~= stream@.subrange(i as int + 1, stream@.len() as int));
        }
        let in_seen = contains_char(seen0, c);
        let in_out = contains_char(&out, c);
        let ghost out_old = out@;
        if !in_seen && !in_out {
            out.push(c);
        }
        proof {
            let oldset = s0.union(out_old.to_set());
            if in_seen || in_out {
                assert(oldset.contains(c));
                assert(dedup_from(suf, oldset) == dedup_from(suf.drop_first(), oldset));
            } else {
                assert(!oldset.contains(c));
                assert(out@ == out_old.push(c));
                lemma_push_to_set(out_old, c);
                assert(s0.union(out@.to_set()) =~= oldset.insert(c));
                assert(dedup_from(suf, oldset) == seq![c] + dedup_from(
                    suf.drop_first(),
                    oldset.insert(c),
                ));
                assert(out_old + dedup_from(suf, oldset) =~= out@ + dedup_from(
                    suf.drop_first(),
                    s0.union(out@.to_set()),
                ));
            }
        }
        i = i + 1;
    }
    proof {
        assert(stream@.subrange(stream@.len() as int, stream@.len() as int)
            =~= Seq::<char>::empty());
        assert(out@ + dedup_from(
            Seq::<char>::empty(),
            s0.union(out@.to_set()),
        ) =~= out@);
    }
    out
}

/// Appending a production whose image is the next expected pair extends the
/// image of the list by that pair.
proof fn lemma_prod_views_push(ps: Seq<Production>, p: Production, expect: Seq<(char, Seq<char>)>)
    requires
        expect.len() == ps.len() + 1,
        prod_views(ps) == expect.drop_last(),
        p.left == expect.last().0,
        p.right@ == expect.last().1,
    ensures
        prod_views(ps.push(p)) == expect,
{
    assert forall|k: int| 0 <= k < expect.len() implies prod_views(ps.push(p))[k] == expect[k] by {
        if k < ps.len() {
            assert(ps.push(p)[k] == ps[k]);
            assert(expect.drop_last()[k] == expect[k]);
            assert(prod_views(ps)[k] == (ps[k].left, ps[k].right@));
        } else {
            assert(ps.push(p)[k] == p);
        }
    }
    assert(prod_views(ps.push(p)) =~= expect);
}

/// The same for the plain sequence of left-hand symbols.
proof fn lemma_lefts_push(ls: Seq<char>, c: char, expect: Seq<(char, Seq<char>)>)
    requires
        expect.len() == ls.len() + 1,
        ls == lefts_of(expect.drop_last()),
        c == expect.last().0,
    ensures
        ls.push(c) == lefts_of(expect),
{
    assert forall|k: int| 0 <= k < expect.len() implies ls.push(c)[k] == lefts_of(expect)[k] by {
        if k < ls.len() {
            assert(ls.push(c)[k] == ls[k]);
            assert(expect.drop_last()[k] == expect[k]);
        } else {
            assert(ls.push(c)[k] == c);
        }
    }
    assert(ls.push(c) =~= lefts_of(expect));
}

/// Appending one production appends its right-hand symbols to the stream.
proof fn lemma_rhs_concat_last(r: Seq<(char, Seq<char>)>)
    requires
        r.len() > 0,
    ensures
        rhs_concat(r) == rhs_concat(r.drop_last()) + r.last().1,
    decreases r.len(),
{
    if r.len() == 1 {
        assert(r.drop_last() =~= Seq::<(char, Seq<char>)>::empty());
        assert(r.drop_first() =~= Seq::<(char, Seq<char>)>::empty());
        assert(rhs_concat(r) =~= rhs_concat(r.drop_last()) + r.last().1);
    } else {
        lemma_rhs_concat_last(r.drop_first());
        assert(r.drop_first().drop_last() =~= r.drop_last().drop_first());
        assert(r.drop_first().last() == r.last());
        assert(r.drop_last()[0] == r[0]);
        assert(rhs_concat(r) =~= rhs_concat(r.drop_last()) + r.last().1);
    }
}

impl Parser {
    /// Turns reducer entries into typed productions and classifies the
    /// grammar's symbols: a symbol is a nonterminal exactly when it appears
    /// on some left-hand side, and a terminal otherwise; both lists keep
    /// first-occurrence order.
    pub fn parse_grammar(reducer_map: &Vec<(char, String)>) -> (r: (
        Vec<Production>,
        Vec<char>,
        Vec<char>,
    ))
        ensures
            prod_views(r.0@) == reducer_views(reducer_map@),
            r.1@ == nonterminals_of(reducer_views(reducer_map@)),
            r.2@ == terminals_of(reducer_views(reducer_map@)),
    {
        let ghost rv = reducer_views(reducer_map@);
        let mut productions: Vec<Production> = Vec::new();
        let mut lefts: Vec<char> = Vec::new();
        let mut all_rhs: Vec<char> = Vec::new();
        let mut i: usize = 0;
        proof {
            assert(rhs_concat(rv.subrange(0, 0)) =~= Seq::<char>::empty());
            assert(all_rhs@ =~= rhs_concat(rv.subrange(0, 0)));
        }
        while i < reducer_map.len()
            invariant
                i <= reducer_map@.len(),
                rv == reducer_views(reducer_map@),
                prod_views(productions@) =~= rv.subrange(0, i as int),
                lefts@ =~= lefts_of(rv.subrange(0, i as int)),
                all_rhs@ == rhs_concat(rv.subrange(0, i as int)),
            decreases reducer_map@.len() - i,
        {
            let left = reducer_map[i].0;
            let right = str_to_chars(reducer_map[i].1.as_str());
            let mut j: usize = 0;
            while j < right.len()
                invariant
                    j <= right@.len(),
                    all_rhs@ == rhs_concat(rv.subrange(0, i as int)) + right@.subrange(
                        0,
                        j as int,
                    ),
                decreases right@.len() - j,
            {
                all_rhs.push(right[j]);
                j = j + 1;
                proof {
                    assert(all_rhs@ =~= rhs_concat(rv.subrange(0, i as int)) + right@.subrange(
                        0,
                        j as int,
                    ));
                }
            }
            proof {
                assert(right@.subrange(0, right@.len() as int) =~= right@);
                assert(right@ == rv[i as int].1);
                assert(left == rv[i as int].0);
            }
            let ghost old_prods = productions@;
            let ghost old_lefts = lefts@;
            let ghost pushed = Production { left, right };
            productions.push(Production { left, right });
            lefts.push(left);
            i = i + 1;
            proof {
                let cut = rv.subrange(0, i as int);
                assert(cut.drop_last() =~= rv.subrange(0, i as int - 1));
                assert(cut.last() == rv[i as int - 1]);
                lemma_rhs_concat_last(cut);
                assert(all_rhs@ =~= rhs_concat(cut));
                assert(productions@ == old_prods.push(pushed));
                assert(prod_views(old_prods).len() == old_prods.len());
                assert(pushed.left == cut.last().0);
                assert(pushed.right@ == cut.last().1);
                lemma_prod_views_push(old_prods, pushed, cut);
                lemma_lefts_push(old_lefts, pushed.left, cut);
                assert(lefts@ == old_lefts.push(pushed.left));
            }
        }
        proof {
            assert(rv.subrange(0, rv.len() as int) =~= rv);
            assert(lefts@ =~= lefts_of(rv));
        }
        let none: Vec<char> = Vec::new();
        let non_terminals = dedup_push(&lefts, &none);
        proof {
            assert(none@.to_set() =~= Set::<char>::empty());
        }
        let terminals = dedup_push(&all_rhs, &lefts);
        (productions, non_terminals, terminals)
    }
}

} // verus!
