//! A character-level model of the `str` operations the parsers rely on
//! (`find`, `split`, `lines`, `trim`, `strip_prefix`, `split_whitespace`),
//! with executable counterparts that work on character vectors.

use vstd::prelude::*;
use vstd::std_specs::iter::IteratorSpec;

verus! {

broadcast use vstd::string::group_string_axioms;

/// `char::is_whitespace`: the Unicode `White_Space` property.
pub open spec fn is_whitespace(c: char) -> bool {
    ||| c == '\t'
    ||| c == '\n'
    ||| c == '\x0B'
    ||| c == '\x0C'
    ||| c == '\r'
    ||| c == ' '
    ||| c == '\u{85}'
    ||| c == '\u{A0}'
    ||| c == '\u{1680}'
    ||| ('\u{2000}' <= c && c <= '\u{200A}')
    ||| c == '\u{2028}'
    ||| c == '\u{2029}'
    ||| c == '\u{202F}'
    ||| c == '\u{205F}'
    ||| c == '\u{3000}'
}

/// `s` with its leading whitespace removed.
pub open spec fn trim_start(s: Seq<char>) -> Seq<char>
    decreases s.len(),
{
    if s.len() > 0 && is_whitespace(s[0]) {
        trim_start(s.drop_first())
    } else {
        s
    }
}

/// `s` with its trailing whitespace removed.
pub open spec fn trim_end(s: Seq<char>) -> Seq<char>
    decreases s.len(),
{
    if s.len() > 0 && is_whitespace(s.last()) {
        trim_end(s.drop_last())
    } else {
        s
    }
}

/// `str::trim`.
pub open spec fn trim(s: Seq<char>) -> Seq<char> {
    trim_end(trim_start(s))
}

/// `s` begins with `p`.
pub open spec fn starts_with(s: Seq<char>, p: Seq<char>) -> bool {
    p.len() <= s.len() && s.take(p.len() as int) == p
}

/// `n` occurs in `h` at position `i`.
pub open spec fn occurs_at(h: Seq<char>, n: Seq<char>, i: int) -> bool {
    0 <= i && i + n.len() <= h.len() && h.subrange(i, i + n.len()) == n
}

/// The first position at or after `i` where `n` occurs in `h`:
/// `h[i..].find(n)`, counted from the start of `h`.
pub open spec fn find_from(h: Seq<char>, n: Seq<char>, i: int) -> Option<int>
    decreases h.len() + 1 - i,
{
    if i < 0 || i + n.len() > h.len() {
        None
    } else if occurs_at(h, n, i) {
        Some(i)
    } else {
        find_from(h, n, i + 1)
    }
}

/// `s.split(sep)` for a single character separator.
pub open spec fn split_char(s: Seq<char>, sep: char) -> Seq<Seq<char>>
    decreases s.len(),
{
    if s.len() == 0 {
        seq![Seq::empty()]
    } else {
        let prev = split_char(s.drop_last(), sep);
        if s.last() == sep {
            prev.push(Seq::empty())
        } else {
            prev.update(prev.len() - 1, prev.last().push(s.last()))
        }
    }
}

/// A line as `str::lines` yields it: a `"\r"` before the line break goes too.
pub open spec fn strip_cr(l: Seq<char>) -> Seq<char> {
    if l.len() > 0 && l.last() == '\r' {
        l.drop_last()
    } else {
        l
    }
}

/// `str::lines`: pieces between `'\n'`, without a final empty piece.
pub open spec fn lines(s: Seq<char>) -> Seq<Seq<char>> {
    let parts = split_char(s, '\n');
    let body = parts.drop_last().map_values(|p: Seq<char>| strip_cr(p));
    if parts.last().len() == 0 {
        body
    } else {
        body.push(parts.last())
    }
}

/// The pieces of `s[start..]` split at each non-overlapping occurrence of
/// the non-empty pattern `p`, left to right: `s[start..].split(p)`.
pub open spec fn split_str_from(s: Seq<char>, p: Seq<char>, start: int) -> Seq<Seq<char>>
    decreases s.len() + 1 - start,
{
    if p.len() == 0 || start < 0 || start > s.len() {
        seq![s.subrange(start, s.len() as int)]
    } else {
        match find_from(s, p, start) {
            Some(i) => {
                proof {
                    lemma_find_from(s, p, start);
                }
                seq![s.subrange(start, i)] + split_str_from(s, p, i + p.len())
            },
            None => seq![s.subrange(start, s.len() as int)],
        }
    }
}

/// The leading run of non-whitespace characters of `s`.
pub open spec fn take_word(s: Seq<char>) -> Seq<char>
    decreases s.len(),
{
    if s.len() == 0 || is_whitespace(s[0]) {
        Seq::empty()
    } else {
        seq![s[0]] + take_word(s.drop_first())
    }
}

/// `s.split_whitespace().next().unwrap_or("")`.
pub open spec fn first_word(s: Seq<char>) -> Seq<char> {
    take_word(trim_start(s))
}

pub proof fn lemma_find_from(h: Seq<char>, n: Seq<char>, i: int)
    requires
        0 <= i,
    ensures
        match find_from(h, n, i) {
            Some(k) => i <= k && occurs_at(h, n, k) && forall|j: int|
                i <= j < k ==> !occurs_at(h, n, j),
            None => forall|j: int| i <= j ==> !occurs_at(h, n, j),
        },
    decreases h.len() + 1 - i,
{
    if i + n.len() <= h.len() && !occurs_at(h, n, i) {
        lemma_find_from(h, n, i + 1);
    }
}

pub proof fn lemma_split_char_len(s: Seq<char>, sep: char)
    ensures
        split_char(s, sep).len() >= 1,
    decreases s.len(),
{
    if s.len() > 0 {
        lemma_split_char_len(s.drop_last(), sep);
    }
}

/// The characters of `s`, in order.
pub fn chars_of(s: &str) -> (v: Vec<char>)
    ensures
        v@ == s@,
{
    let mut v: Vec<char> = Vec::new();
    for c in it: s.chars()
        invariant
            v@ == it.seq().take(it.index()),
    {
        v.push(c);
    }
    v
}

/// `String::push`.
#[verifier::external_body]
fn push_char(s: &mut String, c: char)
    ensures
        final(s)@ == old(s)@.push(c),
{
    s.push(c);
}

/// The string made of the characters `v`.
pub fn string_of(v: &[char]) -> (s: String)
    ensures
        s@ == v@,
{
    let mut s = String::new();
    let mut i: usize = 0;
    while i < v.len()
        invariant
            i <= v.len(),
            s@ == v@.take(i as int),
        decreases v.len() - i,
    {
        push_char(&mut s, v[i]);
        assert(v@.take(i + 1) =~= v@.take(i as int).push(v@[i as int]));
        i += 1;
    }
    assert(v@.take(v.len() as int) =~= v@);
    s
}

/// `s[from..to]` as a vector.
pub fn slice_chars(s: &[char], from: usize, to: usize) -> (v: Vec<char>)
    requires
        from <= to <= s.len(),
    ensures
        v@ == s@.subrange(from as int, to as int),
{
    let mut v: Vec<char> = Vec::new();
    let mut i: usize = from;
    while i < to
        invariant
            from <= i <= to <= s.len(),
            v@ == s@.subrange(from as int, i as int),
        decreases to - i,
    {
        v.push(s[i]);
        assert(s@.subrange(from as int, i + 1) =~= s@.subrange(from as int, i as int).push(
            s@[i as int],
        ));
        i += 1;
    }
    v
}

/// `char::is_whitespace`.
pub fn is_whitespace_char(c: char) -> (b: bool)
    ensures
        b == is_whitespace(c),
{
    c == '\t' || c == '\n' || c == '\x0B' || c == '\x0C' || c == '\r' || c == ' ' || c == '\u{85}'
        || c == '\u{A0}' || c == '\u{1680}' || ('\u{2000}' <= c && c <= '\u{200A}') || c
        == '\u{2028}' || c == '\u{2029}' || c == '\u{202F}' || c == '\u{205F}' || c == '\u{3000}'
}

/// `a == b` on character sequences.
pub fn chars_eq(a: &[char], b: &[char]) -> (r: bool)
    ensures
        r == (a@ == b@),
{
    if a.len() != b.len() {
        return false;
    }
    let mut i: usize = 0;
    while i < a.len()
        invariant
            i <= a.len() == b.len(),
            a@.take(i as int) == b@.take(i as int),
        decreases a.len() - i,
    {
        if a[i] != b[i] {
            assert(a@[i as int] != b@[i as int]);
            return false;
        }
        assert(a@.take(i + 1) =~= a@.take(i as int).push(a@[i as int]));
        assert(b@.take(i + 1) =~= b@.take(i as int).push(b@[i as int]));
        i += 1;
    }
    assert(a@ =~= a@.take(a.len() as int));
    assert(b@ =~= b@.take(b.len() as int));
    true
}

/// Whether `n` occurs in `h` at position `i`.
pub fn occurs_at_exec(h: &[char], n: &[char], i: usize) -> (r: bool)
    ensures
        r == occurs_at(h@, n@, i as int),
{
    if i > h.len() || n.len() > h.len() - i {
        return false;
    }
    let mut k: usize = 0;
    while k < n.len()
        invariant
            i + n.len() <= h.len(),
            k <= n.len(),
            h@.subrange(i as int, i + k) == n@.take(k as int),
        decreases n.len() - k,
    {
        if h[i + k] != n[k] {
            assert(h@.subrange(i as int, i + n.len())[k as int] != n@[k as int]);
            return false;
        }
        assert(h@.subrange(i as int, i + k + 1) =~= h@.subrange(i as int, i + k).push(h@[i + k]));
        assert(n@.take(k + 1) =~= n@.take(k as int).push(n@[k as int]));
        k += 1;
    }
    assert(n@ =~= n@.take(n.len() as int));
    true
}

/// `h[from..].find(n)`, counted from the start of `h`.
pub fn find_chars(h: &[char], n: &[char], from: usize) -> (r: Option<usize>)
    ensures
        r matches Some(k) ==> find_from(h@, n@, from as int) == Some(k as int),
        r is None ==> find_from(h@, n@, from as int) is None,
{
    let mut i: usize = from;
    while i <= h.len() && n.len() <= h.len() - i
        invariant
            from <= i,
            find_from(h@, n@, from as int) == find_from(h@, n@, i as int),
        decreases h.len() + 1 - i,
    {
        if occurs_at_exec(h, n, i) {
            return Some(i);
        }
        if n.len() == 0 {
            assert(h@.subrange(i as int, i as int) =~= n@);
        }
        i += 1;
    }
    None
}

/// `s.split(sep)` for a single character separator.
pub fn split_on_char(s: &[char], sep: char) -> (parts: Vec<Vec<char>>)
    ensures
        parts.deep_view() == split_char(s@, sep),
{
    let mut done: Vec<Vec<char>> = Vec::new();
    let mut cur: Vec<char> = Vec::new();
    let mut i: usize = 0;
    while i < s.len()
        invariant
            i <= s.len(),
            split_char(s@.take(i as int), sep) == done.deep_view().push(cur@),
        decreases s.len() - i,
    {
        proof {
            let t = s@.take(i + 1);
            assert(t.drop_last() =~= s@.take(i as int));
        }
        let ghost old_done = done.deep_view();
        let ghost old_cur = cur@;
        if s[i] == sep {
            assert(cur.deep_view() =~= cur@);
            let finished = cur;
            done.push(finished);
            cur = Vec::new();
            assert(done.deep_view() =~= old_done.push(old_cur));
            assert(done.deep_view().push(cur@) =~= old_done.push(old_cur).push(Seq::empty()));
        } else {
            cur.push(s[i]);
            assert(done.deep_view().push(cur@) =~= old_done.push(old_cur).update(
                old_done.len() as int,
                old_cur.push(s@[i as int]),
            ));
        }
        i += 1;
    }
    assert(s@.take(s.len() as int) =~= s@);
    let ghost old_done = done.deep_view();
    assert(cur.deep_view() =~= cur@);
    done.push(cur);
    assert(done.deep_view() =~= old_done.push(cur@));
    done
}

/// A copy of `v`.
pub fn copy_chars(v: &[char]) -> (c: Vec<char>)
    ensures
        c@ == v@,
{
    let c = slice_chars(v, 0, v.len());
    assert(v@.subrange(0, v.len() as int) =~= v@);
    c
}

/// `str::lines`.
pub fn lines_of(s: &[char]) -> (ls: Vec<Vec<char>>)
    ensures
        ls.deep_view() == lines(s@),
{
    let parts = split_on_char(s, '\n');
    let ghost pv = parts.deep_view();
    proof {
        lemma_split_char_len(s@, '\n');
    }
    let n = parts.len();
    let mut out: Vec<Vec<char>> = Vec::new();
    let mut i: usize = 0;
    while i + 1 < n
        invariant
            n == parts.len() == pv.len() >= 1,
            pv == parts.deep_view(),
            i + 1 <= n,
            out.deep_view() == pv.take(i as int).map_values(|p: Seq<char>| strip_cr(p)),
        decreases n - i,
    {
        let mut l = copy_chars(parts[i].as_slice());
        assert(pv[i as int] == parts@[i as int].deep_view());
        assert(parts@[i as int].deep_view() =~= parts@[i as int]@);
        if l.len() > 0 && l[l.len() - 1] == '\r' {
            l.pop();
        }
        assert(l@ =~= strip_cr(pv[i as int]));
        let ghost old_out = out.deep_view();
        assert(l.deep_view() =~= l@);
        out.push(l);
        assert(out.deep_view() =~= old_out.push(strip_cr(pv[i as int])));
        assert(pv.take(i + 1).map_values(|p: Seq<char>| strip_cr(p)) =~= pv.take(
            i as int,
        ).map_values(|p: Seq<char>| strip_cr(p)).push(strip_cr(pv[i as int])));
        i += 1;
    }
    assert(pv.take(i as int) =~= pv.drop_last());
    assert(pv.last() == parts@[n - 1].deep_view());
    assert(parts@[n - 1].deep_view() =~= parts@[n - 1]@);
    if parts[n - 1].len() > 0 {
        let l = copy_chars(parts[n - 1].as_slice());
        let ghost old_out = out.deep_view();
        assert(l.deep_view() =~= l@);
        out.push(l);
        assert(out.deep_view() =~= old_out.push(pv.last()));
    }
    out
}

/// `str::trim`.
pub fn trim_chars(s: &[char]) -> (t: Vec<char>)
    ensures
        t@ == trim(s@),
{
    let len = s.len();
    let mut i: usize = 0;
    assert(s@.subrange(0, len as int) =~= s@);
    while i < len && is_whitespace_char(s[i])
        invariant
            len == s.len(),
            i <= len,
            trim_start(s@) == trim_start(s@.subrange(i as int, len as int)),
        decreases len - i,
    {
        assert(s@.subrange(i as int, len as int).drop_first() =~= s@.subrange(i + 1, len as int));
        i += 1;
    }
    let mut j: usize = len;
    while j > i && is_whitespace_char(s[j - 1])
        invariant
            len == s.len(),
            i <= j <= len,
            trim_start(s@) == s@.subrange(i as int, len as int),
            trim_end(s@.subrange(i as int, len as int)) == trim_end(s@.subrange(i as int, j as int)),
        decreases j - i,
    {
        assert(s@.subrange(i as int, j as int).drop_last() =~= s@.subrange(i as int, j - 1));
        j -= 1;
    }
    slice_chars(s, i, j)
}

/// `str::starts_with`.
pub fn starts_with_chars(s: &[char], p: &[char]) -> (r: bool)
    ensures
        r == starts_with(s@, p@),
{
    let r = occurs_at_exec(s, p, 0);
    assert(s@.take(p@.len() as int) =~= s@.subrange(0, p@.len() as int));
    r
}

/// `s.split_whitespace().next().unwrap_or("")`.
pub fn first_word_of(s: &[char]) -> (w: Vec<char>)
    ensures
        w@ == first_word(s@),
{
    let len = s.len();
    let mut i: usize = 0;
    assert(s@.subrange(0, len as int) =~= s@);
    while i < len && is_whitespace_char(s[i])
        invariant
            len == s.len(),
            i <= len,
            trim_start(s@) == trim_start(s@.subrange(i as int, len as int)),
        decreases len - i,
    {
        assert(s@.subrange(i as int, len as int).drop_first() =~= s@.subrange(i + 1, len as int));
        i += 1;
    }
    let mut w: Vec<char> = Vec::new();
    let mut k: usize = i;
    while k < len && !is_whitespace_char(s[k])
        invariant
            len == s.len(),
            i <= k <= len,
            trim_start(s@) == s@.subrange(i as int, len as int),
            first_word(s@) == w@ + take_word(s@.subrange(k as int, len as int)),
        decreases len - k,
    {
        let ghost t = s@.subrange(k as int, len as int);
        assert(t.drop_first() =~= s@.subrange(k + 1, len as int));
        assert(w@ + take_word(t) =~= w@.push(s@[k as int]) + take_word(t.drop_first()));
        w.push(s[k]);
        k += 1;
    }
    assert(w@ + take_word(s@.subrange(k as int, len as int)) =~= w@);
    w
}

/// `s.split(p)` for a non-empty pattern `p`.
pub fn split_on_str(s: &[char], p: &[char]) -> (parts: Vec<Vec<char>>)
    requires
        p@.len() > 0,
    ensures
        parts.deep_view() == split_str_from(s@, p@, 0),
{
    let mut done: Vec<Vec<char>> = Vec::new();
    let mut start: usize = 0;
    loop
        invariant
            p@.len() > 0,
            start <= s.len(),
            split_str_from(s@, p@, 0) == done.deep_view() + split_str_from(s@, p@, start as int),
        decreases s.len() + 1 - start,
    {
        let ghost old_done = done.deep_view();
        match find_chars(s, p, start) {
            Some(i) => {
                proof {
                    lemma_find_from(s@, p@, start as int);
                }
                let piece = slice_chars(s, start, i);
                assert(piece.deep_view() =~= piece@);
                done.push(piece);
                assert(done.deep_view() =~= old_done.push(s@.subrange(start as int, i as int)));
                assert(split_str_from(s@, p@, start as int) == seq![
                    s@.subrange(start as int, i as int),
                ] + split_str_from(s@, p@, i + p@.len()));
                assert(old_done + split_str_from(s@, p@, start as int) =~= done.deep_view()
                    + split_str_from(s@, p@, i + p@.len()));
                start = i + p.len();
            },
            None => {
                let piece = slice_chars(s, start, s.len());
                assert(piece.deep_view() =~= piece@);
                done.push(piece);
                assert(done.deep_view() =~= old_done + split_str_from(s@, p@, start as int));
                return done;
            },
        }
    }
}

/// Each line followed by a line break: what `lines.join("\n") + "\n"`
/// writes for a non-empty list of lines.
pub open spec fn terminated(ls: Seq<Seq<char>>) -> Seq<char>
    decreases ls.len(),
{
    if ls.len() == 0 {
        Seq::empty()
    } else {
        terminated(ls.drop_last()) + ls.last() + seq!['\n']
    }
}

/// No piece of `split_char(s, sep)` holds `sep`.
pub proof fn lemma_split_char_pieces(s: Seq<char>, sep: char)
    ensures
        forall|i: int| 0 <= i < split_char(s, sep).len() ==> !(#[trigger] split_char(s, sep)[i]).contains(sep),
    decreases s.len(),
{
    lemma_split_char_len(s, sep);
    if s.len() > 0 {
        let p = split_char(s.drop_last(), sep);
        lemma_split_char_pieces(s.drop_last(), sep);
        lemma_split_char_len(s.drop_last(), sep);
        let q = split_char(s, sep);
        assert forall|i: int| 0 <= i < q.len() implies !(#[trigger] q[i]).contains(sep) by {
            if s.last() != sep && i == p.len() - 1 {
                let l = p.last().push(s.last());
                if l.contains(sep) {
                    let k = choose|k: int| 0 <= k < l.len() && l[k] == sep;
                    if k < l.len() - 1 {
                        assert(p.last()[k] == sep);
                        assert(p[p.len() - 1].contains(sep));
                    }
                }
            } else if i < p.len() {
                assert(q[i] == p[i]);
            } else {
                assert(q[i] =~= Seq::<char>::empty());
            }
        }
    }
}

/// Appending text without the separator extends the last piece.
pub proof fn lemma_split_char_append(x: Seq<char>, y: Seq<char>, sep: char)
    requires
        !y.contains(sep),
    ensures
        split_char(x + y, sep) == split_char(x, sep).update(
            split_char(x, sep).len() - 1,
            split_char(x, sep).last() + y,
        ),
    decreases y.len(),
{
    lemma_split_char_len(x, sep);
    let px = split_char(x, sep);
    if y.len() == 0 {
        assert(x + y =~= x);
        assert(px.last() + y =~= px.last());
        assert(px.update(px.len() - 1, px.last()) =~= px);
    } else {
        let y2 = y.drop_last();
        let c = y.last();
        assert(!y2.contains(sep)) by {
            if y2.contains(sep) {
                let k = choose|k: int| 0 <= k < y2.len() && y2[k] == sep;
                assert(y[k] == sep);
            }
        }
        assert(c != sep) by {
            assert(y[y.len() - 1] == c);
        }
        lemma_split_char_append(x, y2, sep);
        assert((x + y).drop_last() =~= x + y2);
        assert((x + y).last() == c);
        let prev = split_char(x + y2, sep);
        assert(split_char(x + y, sep) == prev.update(prev.len() - 1, prev.last().push(c)));
        assert(prev.len() == px.len());
        assert(prev.last() == px.last() + y2);
        assert(prev.last().push(c) =~= px.last() + y);
        assert(split_char(x + y, sep) =~= px.update(px.len() - 1, px.last() + y));
    }
}

/// Reading back lines written one per line gives them again, less a
/// `"\r"` that ended one.
pub proof fn lemma_lines_of_terminated(ls: Seq<Seq<char>>)
    requires
        forall|i: int| 0 <= i < ls.len() ==> !(#[trigger] ls[i]).contains('\n'),
    ensures
        split_char(terminated(ls), '\n') == ls.push(Seq::empty()),
        lines(terminated(ls)) == ls.map_values(|l: Seq<char>| strip_cr(l)),
    decreases ls.len(),
{
    if ls.len() == 0 {
        assert(terminated(ls) =~= Seq::<char>::empty());
        assert(split_char(Seq::<char>::empty(), '\n') =~= ls.push(Seq::empty()));
    } else {
        let p = ls.drop_last();
        let l = ls.last();
        assert forall|i: int| 0 <= i < p.len() implies !(#[trigger] p[i]).contains('\n') by {
            assert(p[i] == ls[i]);
        }
        lemma_split_char_len(terminated(p), '\n');
        lemma_lines_of_terminated(p);
        assert(ls[ls.len() - 1] == l);
        lemma_split_char_append(terminated(p), l, '\n');
        let x = terminated(p) + l;
        let t = x + seq!['\n'];
        assert(terminated(ls) == t);
        assert(t.drop_last() =~= x);
        let sx = split_char(x, '\n');
        assert(sx =~= p.push(l)) by {
            assert(Seq::<char>::empty() + l =~= l);
        }
        assert(split_char(t, '\n') == sx.push(Seq::empty()));
        assert(split_char(t, '\n') =~= ls.push(Seq::empty()));
    }
    let parts = split_char(terminated(ls), '\n');
    assert(parts.drop_last() =~= ls);
    assert(lines(terminated(ls)) =~= ls.map_values(|l: Seq<char>| strip_cr(l)));
}

/// No line of `lines(s)` holds a line break.
pub proof fn lemma_lines_have_no_break(s: Seq<char>)
    ensures
        forall|i: int| 0 <= i < lines(s).len() ==> !(#[trigger] lines(s)[i]).contains('\n'),
{
    let parts = split_char(s, '\n');
    lemma_split_char_len(s, '\n');
    lemma_split_char_pieces(s, '\n');
    let ls = lines(s);
    assert forall|i: int| 0 <= i < ls.len() implies !(#[trigger] ls[i]).contains('\n') by {
        if i < parts.len() - 1 {
            let p = parts[i];
            assert(!p.contains('\n'));
            if strip_cr(p).contains('\n') {
                let k = choose|k: int| 0 <= k < strip_cr(p).len() && strip_cr(p)[k] == '\n';
                assert(p[k] == '\n');
            }
        } else {
            assert(ls[i] == parts[parts.len() - 1]);
        }
    }
}

/// Finding in `y` behind a prefix `x` is finding in `y`, shifted.
pub proof fn lemma_find_from_shift(x: Seq<char>, y: Seq<char>, n: Seq<char>, k: int)
    requires
        0 <= k,
    ensures
        find_from(x + y, n, x.len() + k) == (match find_from(y, n, k) {
            Some(i) => Some(i + x.len()),
            None => None::<int>,
        }),
    decreases y.len() + 1 - k,
{
    let h = x + y;
    if k + n.len() <= y.len() {
        assert(h.subrange(x.len() + k, x.len() + k + n.len()) =~= y.subrange(k, k + n.len()));
        if !occurs_at(y, n, k) {
            lemma_find_from_shift(x, y, n, k + 1);
        }
    }
}

/// Splitting `y` behind a prefix `x` is splitting `y`.
pub proof fn lemma_split_str_shift(x: Seq<char>, y: Seq<char>, p: Seq<char>, k: int)
    requires
        0 <= k <= y.len(),
    ensures
        split_str_from(x + y, p, x.len() + k) == split_str_from(y, p, k),
    decreases y.len() + 1 - k,
{
    let h = x + y;
    if p.len() == 0 {
        assert(h.subrange(x.len() + k, h.len() as int) =~= y.subrange(k, y.len() as int));
    } else {
        lemma_find_from_shift(x, y, p, k);
        lemma_find_from(y, p, k);
        match find_from(y, p, k) {
            Some(i) => {
                assert(h.subrange(x.len() + k, x.len() + i) =~= y.subrange(k, i));
                lemma_split_str_shift(x, y, p, i + p.len());
                assert(x.len() + i + p.len() == x.len() + (i + p.len()));
            },
            None => {
                assert(h.subrange(x.len() + k, h.len() as int) =~= y.subrange(k, y.len() as int));
            },
        }
    }
}

/// A pattern made of one repeated character `d`, put behind text that does
/// not end in `d`, ends that text's last piece: the pieces of `a` from
/// `start` on come first, then the pieces after the pattern.
pub proof fn lemma_split_str_before(a: Seq<char>, p: Seq<char>, b: Seq<char>, d: char, start: int)
    requires
        p.len() > 0,
        forall|k: int| 0 <= k < p.len() ==> p[k] == d,
        !(a.len() > 0 && a.last() == d),
        0 <= start <= a.len(),
    ensures
        split_str_from(a + p + b, p, start) == split_str_from(a, p, start) + split_str_from(
            a + p + b,
            p,
            (a.len() + p.len()) as int,
        ),
    decreases a.len() + 1 - start,
{
    let h = a + p + b;
    lemma_find_from(a, p, start);
    lemma_find_from(h, p, start);
    match find_from(a, p, start) {
        Some(i) => {
            assert forall|j: int| start <= j <= i implies occurs_at(h, p, j) == occurs_at(a, p, j) by {
                if j + p.len() <= a.len() {
                    assert(h.subrange(j, j + p.len()) =~= a.subrange(j, j + p.len()));
                }
            }
            assert(find_from(h, p, start) == Some(i));
            assert(h.subrange(start, i) =~= a.subrange(start, i));
            lemma_split_str_before(a, p, b, d, i + p.len());
            assert(split_str_from(a, p, start) == seq![a.subrange(start, i)] + split_str_from(
                a,
                p,
                i + p.len(),
            ));
            assert(split_str_from(h, p, start) == seq![h.subrange(start, i)] + split_str_from(
                h,
                p,
                i + p.len(),
            ));
            assert(split_str_from(h, p, start) =~= split_str_from(a, p, start) + split_str_from(
                h,
                p,
                (a.len() + p.len()) as int,
            ));
        },
        None => {
            assert(h.subrange(a.len() as int, (a.len() + p.len()) as int) =~= p);
            assert(occurs_at(h, p, a.len() as int));
            assert forall|j: int| start <= j < a.len() implies !occurs_at(h, p, j) by {
                if j + p.len() <= a.len() {
                    assert(h.subrange(j, j + p.len()) =~= a.subrange(j, j + p.len()));
                    assert(!occurs_at(a, p, j));
                } else if occurs_at(h, p, j) {
                    let k = a.len() - 1 - j;
                    assert(0 <= k < p.len());
                    assert(h.subrange(j, j + p.len()) == p);
                    assert(h.subrange(j, j + p.len())[k] == h[j + k]);
                    assert(h[j + k] == a[a.len() - 1]);
                    assert(p[k] == d);
                    assert(false);
                }
            }
            assert(find_from(h, p, start) == Some(a.len() as int));
            assert(h.subrange(start, a.len() as int) =~= a.subrange(start, a.len() as int));
            assert(split_str_from(h, p, start) =~= split_str_from(a, p, start) + split_str_from(
                h,
                p,
                (a.len() + p.len()) as int,
            ));
        },
    }
}

/// Leading whitespace makes no difference to `trim_start`.
pub proof fn lemma_trim_start_indent(w: Seq<char>, l: Seq<char>)
    requires
        forall|k: int| 0 <= k < w.len() ==> is_whitespace(#[trigger] w[k]),
    ensures
        trim_start(w + l) == trim_start(l),
    decreases w.len(),
{
    if w.len() > 0 {
        assert((w + l)[0] == w[0]);
        assert((w + l).drop_first() =~= w.drop_first() + l);
        assert forall|k: int| 0 <= k < w.drop_first().len() implies is_whitespace(
            #[trigger] w.drop_first()[k],
        ) by {
            assert(w.drop_first()[k] == w[k + 1]);
        }
        lemma_trim_start_indent(w.drop_first(), l);
    } else {
        assert(w + l =~= l);
    }
}

/// `find_from` gives the first occurrence at or after `i`.
pub proof fn lemma_find_from_first(h: Seq<char>, n: Seq<char>, i: int, k: int)
    requires
        0 <= i <= k,
        occurs_at(h, n, k),
        forall|j: int| i <= j < k ==> !occurs_at(h, n, j),
    ensures
        find_from(h, n, i) == Some(k),
    decreases k - i,
{
    if i < k {
        assert(!occurs_at(h, n, i));
        lemma_find_from_first(h, n, i + 1, k);
    }
}

} // verus!
