//! Character-level text handling: white space, trimming, line and field
//! splitting, joining, and comparing texts by their characters.
use vstd::prelude::*;
use vstd::string::*;

verus! {

/// Unicode `White_Space`: the characters that `str::trim` removes.
pub open spec fn is_white(c: char) -> bool {
    ||| ('\u{9}' <= c && c <= '\u{d}')
    ||| c == ' '
    ||| c == '\u{85}'
    ||| c == '\u{a0}'
    ||| c == '\u{1680}'
    ||| ('\u{2000}' <= c && c <= '\u{200a}')
    ||| c == '\u{2028}'
    ||| c == '\u{2029}'
    ||| c == '\u{202f}'
    ||| c == '\u{205f}'
    ||| c == '\u{3000}'
}

/// `s` without its leading white space.
pub open spec fn trim_start(s: Seq<char>) -> Seq<char>
    decreases s.len(),
{
    if s.len() > 0 && is_white(s[0]) {
        trim_start(s.drop_first())
    } else {
        s
    }
}

/// `s` without its trailing white space.
pub open spec fn trim_end(s: Seq<char>) -> Seq<char>
    decreases s.len(),
{
    if s.len() > 0 && is_white(s.last()) {
        trim_end(s.drop_last())
    } else {
        s
    }
}

/// `s` without leading and trailing white space, as `str::trim` gives it.
pub open spec fn trim(s: Seq<char>) -> Seq<char> {
    trim_end(trim_start(s))
}

/// The pieces of `s` between occurrences of `sep`, as `str::split` gives
/// them: one more piece than `s` has separators.
pub open spec fn split_on(s: Seq<char>, sep: char) -> Seq<Seq<char>>
    decreases s.len(),
{
    if s.len() == 0 {
        seq![Seq::<char>::empty()]
    } else {
        let p = split_on(s.drop_last(), sep);
        if s.last() == sep {
            p.push(Seq::<char>::empty())
        } else {
            p.update(p.len() - 1, p.last().push(s.last()))
        }
    }
}

/// A line without the carriage return of a `\r\n` ending.
pub open spec fn strip_cr(l: Seq<char>) -> Seq<char> {
    if l.len() > 0 && l.last() == '\r' {
        l.drop_last()
    } else {
        l
    }
}

/// The lines of `s`, as `str::lines` gives them: split at `\n`, a `\r`
/// right before a `\n` dropped, and no empty line after a final `\n`.
pub open spec fn lines_of(s: Seq<char>) -> Seq<Seq<char>> {
    if s.len() == 0 {
        seq![]
    } else if s.last() == '\n' {
        split_on(s.drop_last(), '\n').map_values(|l: Seq<char>| strip_cr(l))
    } else {
        let p = split_on(s, '\n');
        p.drop_last().map_values(|l: Seq<char>| strip_cr(l)).push(p.last())
    }
}

/// The parts joined with `sep` between each two neighbours.
pub open spec fn join(parts: Seq<Seq<char>>, sep: Seq<char>) -> Seq<char>
    decreases parts.len(),
{
    if parts.len() == 0 {
        Seq::<char>::empty()
    } else if parts.len() == 1 {
        parts[0]
    } else {
        join(parts.drop_last(), sep) + sep + parts.last()
    }
}

/// The index of the first `c` in `s`, if there is one.
pub open spec fn find_char(s: Seq<char>, c: char) -> Option<int> {
    if exists|k: int| 0 <= k < s.len() && s[k] == c && forall|j: int| 0 <= j < k ==> s[j] != c {
        Some(choose|k: int| 0 <= k < s.len() && s[k] == c && forall|j: int| 0 <= j < k ==> s[j] != c)
    } else {
        None
    }
}

/// The texts that a list of character ranges of `cs` denotes.
pub open spec fn pieces(cs: Seq<char>, rs: Seq<(usize, usize)>) -> Seq<Seq<char>> {
    rs.map_values(|r: (usize, usize)| cs.subrange(r.0 as int, r.1 as int))
}

/// Every range lies within `cs`.
pub open spec fn ranges_within(cs: Seq<char>, rs: Seq<(usize, usize)>) -> bool {
    forall|k: int| 0 <= k < rs.len() ==> rs[k].0 <= #[trigger] rs[k].1 <= cs.len()
}

/// What `str::to_lowercase` gives for a text.
pub uninterp spec fn lowercase(s: Seq<char>) -> Seq<char>;

/// Every character is ASCII.
pub open spec fn is_ascii_text(s: Seq<char>) -> bool {
    forall|i: int| 0 <= i < s.len() ==> (s[i] as u32) < 128
}

/// The ASCII letters `A`..`Z` turned to `a`..`z`, everything else kept.
pub open spec fn ascii_lower(s: Seq<char>) -> Seq<char> {
    s.map_values(|c: char| if 'A' <= c && c <= 'Z' { ((c as u32) + 32) as char } else { c })
}

/// The lowercase form of a text: ASCII text has its capital letters made
/// small; other text is what `str::to_lowercase` gives.
pub open spec fn lower(s: Seq<char>) -> Seq<char> {
    if is_ascii_text(s) {
        ascii_lower(s)
    } else {
        lowercase(s)
    }
}

/// The characters of each string.
pub open spec fn views(ps: Seq<String>) -> Seq<Seq<char>> {
    ps.map_values(|p: String| p@)
}

/// The texts that are not empty, in order.
pub open spec fn nonempty_only(s: Seq<Seq<char>>) -> Seq<Seq<char>>
    decreases s.len(),
{
    if s.len() == 0 {
        seq![]
    } else {
        let r = nonempty_only(s.drop_last());
        if s.last().len() > 0 {
            r.push(s.last())
        } else {
            r
        }
    }
}

/// The items of a comma-separated list: each piece trimmed, empty ones
/// left out.
pub open spec fn list_items(s: Seq<char>) -> Seq<Seq<char>> {
    nonempty_only(split_on(s, ',').map_values(|p: Seq<char>| trim(p)))
}

/// Splitting always gives at least one piece.
pub proof fn lemma_split_on_nonempty(s: Seq<char>, sep: char)
    ensures
        split_on(s, sep).len() >= 1,
    decreases s.len(),
{
    if s.len() > 0 {
        lemma_split_on_nonempty(s.drop_last(), sep);
    }
}

/// The separator between the items of a written list.
pub open spec fn list_sep() -> Seq<char> {
    seq![',', ' ']
}

/// No character of `s` is `c`.
pub open spec fn lacks(s: Seq<char>, c: char) -> bool {
    forall|i: int| 0 <= i < s.len() ==> s[i] != c
}

/// No `\r` stands right before a `\n`.
pub open spec fn no_crlf(s: Seq<char>) -> bool {
    forall|i: int| 0 < i < s.len() && #[trigger] s[i] == '\n' ==> s[i - 1] != '\r'
}

/// `s` has no white space at either end: trimming leaves it as it is.
pub open spec fn trimmed(s: Seq<char>) -> bool {
    s.len() == 0 || (!is_white(s[0]) && !is_white(s.last()))
}

/// A trimmed text is its own trim.
pub proof fn lemma_trimmed(s: Seq<char>)
    requires
        trimmed(s),
    ensures
        trim(s) == s,
{
}

/// A space before a trimmed text is trimmed away.
pub proof fn lemma_trim_after_space(s: Seq<char>)
    requires
        trimmed(s),
    ensures
        trim(seq![' '] + s) == s,
{
    let t = seq![' '] + s;
    assert(t.drop_first() =~= s);
    assert(t[0] == ' ');
    assert(trim_start(t) == trim_start(s));
    assert(trim_start(s) == s);
    lemma_trimmed(s);
}

/// Without a separator, the whole text is the only piece.
pub proof fn lemma_split_on_lacks(x: Seq<char>, c: char)
    requires
        lacks(x, c),
    ensures
        split_on(x, c) == seq![x],
    decreases x.len(),
{
    if x.len() > 0 {
        assert(lacks(x.drop_last(), c));
        lemma_split_on_lacks(x.drop_last(), c);
        assert(x.last() != c);
        assert(x.drop_last().push(x.last()) =~= x);
        assert(seq![x.drop_last()].update(0, x.drop_last().push(x.last())) =~= seq![x]);
    } else {
        assert(x =~= Seq::<char>::empty());
    }
}

/// Splitting at a separator splits the two sides apart.
pub proof fn lemma_split_on_sep(x: Seq<char>, y: Seq<char>, c: char)
    ensures
        split_on(x + seq![c] + y, c) == split_on(x, c) + split_on(y, c),
    decreases y.len(),
{
    let s = x + seq![c] + y;
    let a = split_on(x, c);
    lemma_split_on_nonempty(x, c);
    if y.len() == 0 {
        assert(s.drop_last() =~= x);
        assert(a.push(Seq::<char>::empty()) =~= a + seq![Seq::<char>::empty()]);
    } else {
        let y2 = y.drop_last();
        lemma_split_on_sep(x, y2, c);
        lemma_split_on_nonempty(y2, c);
        assert(s.drop_last() =~= x + seq![c] + y2);
        assert(s.last() == y.last());
        let b = split_on(y2, c);
        if y.last() == c {
            assert((a + b).push(Seq::<char>::empty()) =~= a + b.push(Seq::<char>::empty()));
        } else {
            assert((a + b).update((a + b).len() - 1, (a + b).last().push(y.last())) =~= a
                + b.update(b.len() - 1, b.last().push(y.last())));
        }
    }
}

/// The last piece, where it is not empty, ends as the text ends.
pub proof fn lemma_split_on_last(s: Seq<char>, c: char)
    requires
        split_on(s, c).last().len() > 0,
    ensures
        s.len() > 0,
        split_on(s, c).last().last() == s.last(),
{
    if s.len() > 0 {
        lemma_split_on_nonempty(s.drop_last(), c);
    }
}

/// The first line, then the lines of the rest.
pub proof fn lemma_lines_cons(a: Seq<char>, b: Seq<char>)
    requires
        lacks(a, '\n'),
    ensures
        lines_of(a + seq!['\n'] + b) == seq![strip_cr(a)] + lines_of(b),
{
    let s = a + seq!['\n'] + b;
    lemma_split_on_lacks(a, '\n');
    if b.len() == 0 {
        assert(s.drop_last() =~= a);
        assert(seq![a].map_values(|l: Seq<char>| strip_cr(l)) =~= seq![strip_cr(a)]);
        assert(seq![strip_cr(a)] + lines_of(b) =~= seq![strip_cr(a)]);
    } else if b.last() == '\n' {
        assert(s.drop_last() =~= a + seq!['\n'] + b.drop_last());
        lemma_split_on_sep(a, b.drop_last(), '\n');
        let q = split_on(b.drop_last(), '\n');
        assert((seq![a] + q).map_values(|l: Seq<char>| strip_cr(l)) =~= seq![strip_cr(a)]
            + q.map_values(|l: Seq<char>| strip_cr(l)));
    } else {
        lemma_split_on_sep(a, b, '\n');
        let q = split_on(b, '\n');
        lemma_split_on_nonempty(b, '\n');
        let p = seq![a] + q;
        assert(p.drop_last() =~= seq![a] + q.drop_last());
        assert(p.drop_last().map_values(|l: Seq<char>| strip_cr(l)).push(p.last()) =~= seq![
            strip_cr(a),
        ] + q.drop_last().map_values(|l: Seq<char>| strip_cr(l)).push(q.last()));
    }
}

/// Lines joined with `\n`, then `\n` and more text, read back as those
/// lines and the lines of the rest.
pub proof fn lemma_lines_of_join_then(ls: Seq<Seq<char>>, c: Seq<char>)
    requires
        ls.len() >= 1,
        forall|i: int| 0 <= i < ls.len() ==> lacks(#[trigger] ls[i], '\n') && strip_cr(ls[i]) == ls[i],
    ensures
        lines_of(join(ls, seq!['\n']) + seq!['\n'] + c) == ls + lines_of(c),
    decreases ls.len(),
{
    if ls.len() == 1 {
        lemma_lines_cons(ls[0], c);
        assert(seq![ls[0]] =~= ls);
    } else {
        let l = ls.last();
        let ls2 = ls.drop_last();
        assert(lacks(l, '\n') && strip_cr(l) == l);
        lemma_lines_of_join_then(ls2, l + seq!['\n'] + c);
        lemma_lines_cons(l, c);
        assert(join(ls, seq!['\n']) + seq!['\n'] + c =~= join(ls2, seq!['\n']) + seq!['\n'] + (l
            + seq!['\n'] + c));
        assert(ls2 + (seq![l] + lines_of(c)) =~= ls + lines_of(c));
    }
}

/// Lines joined with `\n` read back as the same lines.
pub proof fn lemma_lines_of_join(ls: Seq<Seq<char>>)
    requires
        ls.len() >= 1,
        ls.last().len() > 0,
        forall|i: int| 0 <= i < ls.len() ==> lacks(#[trigger] ls[i], '\n') && strip_cr(ls[i]) == ls[i],
    ensures
        lines_of(join(ls, seq!['\n'])) == ls,
{
    let l = ls.last();
    assert(lacks(l, '\n'));
    lemma_split_on_lacks(l, '\n');
    if ls.len() == 1 {
        assert(seq![l].drop_last().map_values(|x: Seq<char>| strip_cr(x)).push(l) =~= ls);
    } else {
        let ls2 = ls.drop_last();
        lemma_lines_of_join_then(ls2, l);
        assert(seq![l].drop_last().map_values(|x: Seq<char>| strip_cr(x)).push(l) =~= seq![l]);
        assert(ls2 + seq![l] =~= ls);
    }
}

proof fn lemma_join_update_last(p: Seq<Seq<char>>, sep: Seq<char>, x: char)
    requires
        p.len() >= 1,
    ensures
        join(p.update(p.len() - 1, p.last().push(x)), sep) == join(p, sep).push(x),
{
    let q = p.update(p.len() - 1, p.last().push(x));
    if p.len() > 1 {
        assert(q.drop_last() =~= p.drop_last());
        assert(join(p.drop_last(), sep) + sep + p.last().push(x) =~= (join(p.drop_last(), sep)
            + sep + p.last()).push(x));
    }
}

/// Joining the pieces with the separator gives back the text.
pub proof fn lemma_join_split(s: Seq<char>, c: char)
    ensures
        join(split_on(s, c), seq![c]) == s,
    decreases s.len(),
{
    if s.len() == 0 {
        assert(join(split_on(s, c), seq![c]) =~= s);
    } else {
        let p = split_on(s.drop_last(), c);
        lemma_join_split(s.drop_last(), c);
        lemma_split_on_nonempty(s.drop_last(), c);
        if s.last() == c {
            let q = p.push(Seq::<char>::empty());
            assert(q.drop_last() =~= p);
            assert(join(p, seq![c]) + seq![c] + Seq::<char>::empty() =~= s);
        } else {
            lemma_join_update_last(p, seq![c], s.last());
            assert(s.drop_last().push(s.last()) =~= s);
        }
    }
}

/// Without `\r\n`, no piece but the last ends in a `\r`.
proof fn lemma_pieces_no_cr(s: Seq<char>)
    requires
        no_crlf(s),
    ensures
        forall|i: int|
            0 <= i < split_on(s, '\n').len() - 1 ==> strip_cr(#[trigger] split_on(s, '\n')[i])
                == split_on(s, '\n')[i],
    decreases s.len(),
{
    if s.len() > 0 {
        let s2 = s.drop_last();
        let p2 = split_on(s2, '\n');
        lemma_split_on_nonempty(s2, '\n');
        assert(no_crlf(s2)) by {
            assert forall|i: int| 0 < i < s2.len() && #[trigger] s2[i] == '\n' implies s2[i - 1] != '\r' by {
                assert(s[i] == s2[i] && s[i - 1] == s2[i - 1]);
            }
        }
        lemma_pieces_no_cr(s2);
        if s.last() == '\n' && p2.last().len() > 0 {
            lemma_split_on_last(s2, '\n');
            assert(s[s.len() - 1] == '\n');
            assert(s[s.len() - 2] == s2.last());
        }
    }
}

/// Without `\r\n` and a final `\n`, the lines joined with `\n` give back
/// the text.
pub proof fn lemma_join_lines_of(s: Seq<char>)
    requires
        no_crlf(s),
        s.len() == 0 || s.last() != '\n',
    ensures
        join(lines_of(s), seq!['\n']) == s,
{
    if s.len() == 0 {
        assert(join(lines_of(s), seq!['\n']) =~= s);
    } else {
        let p = split_on(s, '\n');
        lemma_split_on_nonempty(s, '\n');
        lemma_pieces_no_cr(s);
        assert(p.drop_last().map_values(|l: Seq<char>| strip_cr(l)).push(p.last()) =~= p);
        lemma_join_split(s, '\n');
    }
}

/// The items that a list joined with `, ` reads back as.
proof fn lemma_split_join_list(ds: Seq<Seq<char>>)
    requires
        ds.len() >= 1,
        forall|i: int| 0 <= i < ds.len() ==> lacks(#[trigger] ds[i], ','),
    ensures
        split_on(join(ds, list_sep()), ',').len() == ds.len(),
        split_on(join(ds, list_sep()), ',')[0] == ds[0],
        forall|i: int|
            1 <= i < ds.len() ==> #[trigger] split_on(join(ds, list_sep()), ',')[i] == seq![' ']
                + ds[i],
    decreases ds.len(),
{
    if ds.len() == 1 {
        assert(lacks(ds[0], ','));
        lemma_split_on_lacks(ds[0], ',');
    } else {
        let ds2 = ds.drop_last();
        let d = ds.last();
        assert(lacks(d, ','));
        lemma_split_join_list(ds2);
        assert(join(ds, list_sep()) =~= join(ds2, list_sep()) + seq![','] + (seq![' '] + d));
        lemma_split_on_sep(join(ds2, list_sep()), seq![' '] + d, ',');
        assert(lacks(seq![' '] + d, ','));
        lemma_split_on_lacks(seq![' '] + d, ',');
    }
}

proof fn lemma_nonempty_only_all(ds: Seq<Seq<char>>)
    requires
        forall|i: int| 0 <= i < ds.len() ==> (#[trigger] ds[i]).len() > 0,
    ensures
        nonempty_only(ds) == ds,
    decreases ds.len(),
{
    if ds.len() > 0 {
        lemma_nonempty_only_all(ds.drop_last());
        assert(ds.drop_last().push(ds.last()) =~= ds);
    }
}

/// A list of trimmed, non-empty items without commas, joined with `, `,
/// reads back as the same items.
pub proof fn lemma_list_items_join(ds: Seq<Seq<char>>)
    requires
        forall|i: int|
            0 <= i < ds.len() ==> (#[trigger] ds[i]).len() > 0 && trimmed(ds[i]) && lacks(ds[i], ','),
    ensures
        list_items(join(ds, list_sep())) == ds,
{
    if ds.len() == 0 {
        assert(split_on(join(ds, list_sep()), ',').map_values(|p: Seq<char>| trim(p)) =~= seq![
            Seq::<char>::empty(),
        ]);
        let e = seq![Seq::<char>::empty()];
        assert(e.drop_last() =~= Seq::<Seq<char>>::empty());
        assert(nonempty_only(e.drop_last()) =~= Seq::<Seq<char>>::empty());
        assert(e.last().len() == 0);
        assert(nonempty_only(e) == nonempty_only(e.drop_last()));
        assert(nonempty_only(e) =~= ds);
    } else {
        lemma_split_join_list(ds);
        let p = split_on(join(ds, list_sep()), ',');
        assert forall|i: int| 0 <= i < ds.len() implies trim(#[trigger] p[i]) == ds[i] by {
            if i == 0 {
                lemma_trimmed(ds[0]);
            } else {
                lemma_trim_after_space(ds[i]);
            }
        }
        assert(p.map_values(|x: Seq<char>| trim(x)) =~= ds);
        lemma_nonempty_only_all(ds);
    }
}

/// `str::to_lowercase`: the lowercase mapping of every character of `s`.
/// Its result is named, not described; stated beside the name is only that
/// ASCII text comes back with its capital letters made small.
#[verifier::external_body]
pub(crate) fn to_lowercase(s: &str) -> (r: String)
    ensures
        r@ == lowercase(s@),
        is_ascii_text(s@) ==> r@ == ascii_lower(s@),
{
    s.to_lowercase()
}

/// Whether `c` is white space, as `char::is_whitespace` defines it.
pub fn is_whitespace(c: char) -> (r: bool)
    ensures
        r == is_white(c),
{
    ('\u{9}' <= c && c <= '\u{d}') || c == ' ' || c == '\u{85}' || c == '\u{a0}' || c == '\u{1680}'
        || ('\u{2000}' <= c && c <= '\u{200a}') || c == '\u{2028}' || c == '\u{2029}' || c
        == '\u{202f}' || c == '\u{205f}' || c == '\u{3000}'
}

/// The characters of `s`, in order.
pub fn chars_of(s: &str) -> (v: Vec<char>)
    ensures
        v@ == s@,
{
    let mut v: Vec<char> = Vec::new();
    for c in it: s.chars()
        invariant
            v@ == it.seq().take(it.index() as int),
    {
        v.push(c);
    }
    v
}

/// Whether two texts hold the same characters.
pub fn same_text(a: &str, b: &str) -> (r: bool)
    ensures
        r == (a@ == b@),
{
    let x = chars_of(a);
    let y = chars_of(b);
    if x.len() != y.len() {
        return false;
    }
    let mut i: usize = 0;
    while i < x.len()
        invariant
            x@ == a@,
            y@ == b@,
            x.len() == y.len(),
            i <= x.len(),
            forall|j: int| 0 <= j < i ==> x@[j] == y@[j],
        decreases x.len() - i,
    {
        if x[i] != y[i] {
            return false;
        }
        i += 1;
    }
    assert(x@ =~= y@);
    true
}

/// `a` followed by `b`, as a new string.
pub fn concat_text(a: &str, b: &str) -> (r: String)
    ensures
        r@ == a@ + b@,
{
    let mut r = a.to_owned();
    r.append(b);
    r
}

/// The characters `lo..hi` of `s` as a new string.
pub fn substring(s: &str, lo: usize, hi: usize) -> (r: String)
    requires
        lo <= hi <= s@.len(),
    ensures
        r@ == s@.subrange(lo as int, hi as int),
{
    s.substring_char(lo, hi).to_owned()
}

/// The range `lo..hi` of `cs` narrowed to leave out leading and trailing
/// white space.
pub fn trim_range(cs: &Vec<char>, lo: usize, hi: usize) -> (r: (usize, usize))
    requires
        lo <= hi <= cs.len(),
    ensures
        lo <= r.0 <= r.1 <= hi,
        cs@.subrange(r.0 as int, r.1 as int) == trim(cs@.subrange(lo as int, hi as int)),
{
    let mut a = lo;
    while a < hi && is_whitespace(cs[a])
        invariant
            lo <= a <= hi <= cs.len(),
            trim_start(cs@.subrange(lo as int, hi as int)) == trim_start(
                cs@.subrange(a as int, hi as int),
            ),
        decreases hi - a,
    {
        assert(cs@.subrange(a as int, hi as int).drop_first() =~= cs@.subrange(
            a + 1,
            hi as int,
        ));
        a += 1;
    }
    let mut b = hi;
    while b > a && is_whitespace(cs[b - 1])
        invariant
            lo <= a <= b <= hi <= cs.len(),
            trim(cs@.subrange(lo as int, hi as int)) == trim_end(cs@.subrange(a as int, b as int)),
        decreases b - a,
    {
        assert(cs@.subrange(a as int, b as int).drop_last() =~= cs@.subrange(
            a as int,
            b - 1,
        ));
        b -= 1;
    }
    (a, b)
}

/// `s` without leading and trailing white space.
pub fn trim_text(s: &str) -> (r: String)
    ensures
        r@ == trim(s@),
{
    let cs = chars_of(s);
    let (a, b) = trim_range(&cs, 0, cs.len());
    assert(cs@.subrange(0, cs@.len() as int) =~= cs@);
    substring(s, a, b)
}

/// The ranges of the pieces of `cs[lo..hi]` between occurrences of `sep`.
pub fn split_ranges(cs: &Vec<char>, lo: usize, hi: usize, sep: char) -> (r: Vec<(usize, usize)>)
    requires
        lo <= hi <= cs.len(),
    ensures
        ranges_within(cs@, r@),
        pieces(cs@, r@) == split_on(cs@.subrange(lo as int, hi as int), sep),
{
    let mut out: Vec<(usize, usize)> = Vec::new();
    let mut start = lo;
    let mut i = lo;
    assert(cs@.subrange(lo as int, lo as int) =~= Seq::<char>::empty());
    assert(pieces(cs@, out@.push((start, i))) =~= split_on(
        cs@.subrange(lo as int, i as int),
        sep,
    ));
    while i < hi
        invariant
            lo <= start <= i <= hi <= cs.len(),
            ranges_within(cs@, out@),
            pieces(cs@, out@.push((start, i))) == split_on(cs@.subrange(lo as int, i as int), sep),
        decreases hi - i,
    {
        let ghost before = split_on(cs@.subrange(lo as int, i as int), sep);
        proof {
            lemma_split_on_nonempty(cs@.subrange(lo as int, i as int), sep);
        }
        assert(cs@.subrange(lo as int, i + 1).drop_last() =~= cs@.subrange(lo as int, i as int));
        assert(cs@.subrange(lo as int, i + 1).last() == cs@[i as int]);
        if cs[i] == sep {
            out.push((start, i));
            start = i + 1;
            i += 1;
            assert(cs@.subrange(i as int, i as int) =~= Seq::<char>::empty());
            assert(pieces(cs@, out@.push((start, i))) =~= before.push(Seq::<char>::empty()));
        } else {
            i += 1;
            assert(cs@.subrange(start as int, i as int) =~= cs@.subrange(
                start as int,
                i - 1,
            ).push(cs@[i - 1]));
            assert(pieces(cs@, out@.push((start, i))) =~= before.update(
                before.len() - 1,
                before.last().push(cs@[i - 1]),
            ));
        }
    }
    out.push((start, i));
    out
}

/// The ranges of the lines of `cs`.
pub fn line_ranges(cs: &Vec<char>) -> (r: Vec<(usize, usize)>)
    ensures
        ranges_within(cs@, r@),
        pieces(cs@, r@) == lines_of(cs@),
{
    let n = cs.len();
    if n == 0 {
        let empty: Vec<(usize, usize)> = Vec::new();
        assert(pieces(cs@, empty@) =~= lines_of(cs@));
        return empty;
    }
    let ends_nl = cs[n - 1] == '\n';
    let hi = if ends_nl {
        n - 1
    } else {
        n
    };
    assert(cs@.subrange(0, n as int) =~= cs@);
    assert(ends_nl ==> cs@.subrange(0, hi as int) =~= cs@.drop_last());
    let raw = split_ranges(cs, 0, hi, '\n');
    let ghost p = split_on(cs@.subrange(0, hi as int), '\n');
    proof {
        lemma_split_on_nonempty(cs@.subrange(0, hi as int), '\n');
    }
    let mut out: Vec<(usize, usize)> = Vec::new();
    let mut k: usize = 0;
    while k < raw.len()
        invariant
            n == cs.len(),
            n > 0,
            ends_nl == (cs@[n - 1] == '\n'),
            hi == (if ends_nl { n - 1 } else { n as int }),
            p == split_on(cs@.subrange(0, hi as int), '\n'),
            p.len() >= 1,
            ranges_within(cs@, raw@),
            pieces(cs@, raw@) == p,
            k <= raw.len(),
            out@.len() == k,
            ranges_within(cs@, out@),
            forall|j: int|
                0 <= j < k ==> #[trigger] pieces(cs@, out@)[j] == (if ends_nl || j + 1 < p.len() {
                    strip_cr(p[j])
                } else {
                    p[j]
                }),
        decreases raw.len() - k,
    {
        let (a, b) = raw[k];
        let ghost old_out = out@;
        assert(pieces(cs@, raw@)[k as int] == cs@.subrange(a as int, b as int));
        assert(raw@.len() == p.len());
        if (ends_nl || k + 1 < raw.len()) && a < b && cs[b - 1] == '\r' {
            assert(cs@.subrange(a as int, b - 1) =~= cs@.subrange(a as int, b as int).drop_last());
            out.push((a, b - 1));
        } else {
            out.push((a, b));
        }
        assert(pieces(cs@, out@)[k as int] == cs@.subrange(out@[k as int].0 as int, out@[k as int].1 as int));
        assert(out@.drop_last() =~= old_out);
        assert forall|j: int| 0 <= j < k implies #[trigger] pieces(cs@, out@)[j] == pieces(
            cs@,
            old_out,
        )[j] by {}
        k += 1;
    }
    assert(pieces(cs@, out@) =~= lines_of(cs@));
    out
}


/// The texts of the ranges `from..to` of `rs` within `s`, as strings.
pub fn range_strings(s: &str, rs: &Vec<(usize, usize)>, from: usize, to: usize) -> (r: Vec<String>)
    requires
        from <= to <= rs.len(),
        ranges_within(s@, rs@),
    ensures
        views(r@) == pieces(s@, rs@).subrange(from as int, to as int),
{
    let mut out: Vec<String> = Vec::new();
    let mut k = from;
    while k < to
        invariant
            from <= k <= to <= rs.len(),
            ranges_within(s@, rs@),
            views(out@) == pieces(s@, rs@).subrange(from as int, k as int),
        decreases to - k,
    {
        let (a, b) = rs[k];
        assert(rs@[k as int].0 <= rs@[k as int].1 <= s@.len());
        let piece = substring(s, a, b);
        let ghost old_out = out@;
        out.push(piece);
        assert(views(out@) =~= views(old_out).push(piece@));
        assert(pieces(s@, rs@).subrange(from as int, k + 1) =~= pieces(s@, rs@).subrange(
            from as int,
            k as int,
        ).push(pieces(s@, rs@)[k as int]));
        k += 1;
    }
    out
}

/// The parts joined with `sep` between each two neighbours.
pub fn join_strings(parts: &Vec<String>, sep: &str) -> (r: String)
    ensures
        r@ == join(views(parts@), sep@),
{
    let mut out = String::new();
    let mut k: usize = 0;
    assert(views(parts@).take(0) =~= Seq::<Seq<char>>::empty());
    while k < parts.len()
        invariant
            k <= parts.len(),
            out@ == join(views(parts@).take(k as int), sep@),
        decreases parts.len() - k,
    {
        let ghost prefix = views(parts@).take(k as int);
        assert(views(parts@).take(k + 1).drop_last() =~= prefix);
        assert(views(parts@).take(k + 1).last() == parts@[k as int]@);
        if k > 0 {
            out.append(sep);
        }
        out.append(parts[k].as_str());
        k += 1;
    }
    assert(views(parts@).take(parts.len() as int) =~= views(parts@));
    out
}

/// The items of the comma-separated list `s`: each piece trimmed, empty
/// ones left out.
pub fn list_items_of(s: &str) -> (r: Vec<String>)
    ensures
        views(r@) == list_items(s@),
{
    let cs = chars_of(s);
    let rs = split_ranges(&cs, 0, cs.len(), ',');
    assert(cs@.subrange(0, cs@.len() as int) =~= cs@);
    let ghost p = split_on(s@, ',');
    let ghost t = p.map_values(|x: Seq<char>| trim(x));
    let mut out: Vec<String> = Vec::new();
    let mut k: usize = 0;
    assert(t.take(0) =~= Seq::<Seq<char>>::empty());
    while k < rs.len()
        invariant
            cs@ == s@,
            ranges_within(cs@, rs@),
            pieces(cs@, rs@) == p,
            p == split_on(s@, ','),
            t == p.map_values(|x: Seq<char>| trim(x)),
            k <= rs.len(),
            views(out@) == nonempty_only(t.take(k as int)),
        decreases rs.len() - k,
    {
        let (a, b) = rs[k];
        assert(rs@[k as int].0 <= rs@[k as int].1 <= cs@.len());
        let (x, y) = trim_range(&cs, a, b);
        assert(pieces(cs@, rs@)[k as int] == cs@.subrange(a as int, b as int));
        assert(t.take(k + 1).drop_last() =~= t.take(k as int));
        assert(t.take(k + 1).last() == t[k as int]);
        if x < y {
            let item = substring(s, x, y);
            let ghost old_out = out@;
            out.push(item);
            assert(views(out@) =~= views(old_out).push(item@));
        }
        k += 1;
    }
    assert(t.take(rs.len() as int) =~= t);
    out
}


/// The first position of `c` within `cs[lo..hi]`.
pub fn find_in(cs: &Vec<char>, lo: usize, hi: usize, c: char) -> (r: Option<usize>)
    requires
        lo <= hi <= cs.len(),
    ensures
        match r {
            Some(j) => lo <= j < hi && find_char(cs@.subrange(lo as int, hi as int), c) == Some(
                j - lo,
            ),
            None => find_char(cs@.subrange(lo as int, hi as int), c) is None,
        },
{
    let ghost t = cs@.subrange(lo as int, hi as int);
    let mut i = lo;
    while i < hi
        invariant
            lo <= i <= hi <= cs.len(),
            t == cs@.subrange(lo as int, hi as int),
            forall|j: int| 0 <= j < i - lo ==> t[j] != c,
        decreases hi - i,
    {
        if cs[i] == c {
            let ghost k = i - lo;
            assert(t[k] == c);
            assert forall|m: int|
                0 <= m < t.len() && t[m] == c && (forall|j: int| 0 <= j < m ==> t[j] != c) implies m
                == k by {
                if m < k {
                    assert(t[m] != c);
                } else if m > k {
                    assert(t[k] != c);
                }
            }
            return Some(i);
        }
        i += 1;
    }
    None
}

} // verus!
