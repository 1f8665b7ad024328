//! Text as characters: conversions between strings and character vectors,
//! white space, lines and words as the standard library splits them, and
//! joining.
use vstd::prelude::*;

verus! {

broadcast use vstd::string::group_string_axioms;

/// The characters of `s`, in order.
pub fn chars_of(s: &str) -> (v: Vec<char>)
    ensures
        v@ == s@,
{
    let mut v: Vec<char> = Vec::new();
    for c in it: s.chars()
        invariant
            v@ == it.seq().take(it.index()),
            it.seq() == s@,
    {
        v.push(c);
    }
    assert(v@ =~= s@);
    v
}

/// Appends one character to a string.
///
/// Wraps `String::push`; the contract claims that the string afterwards is
/// the one before with `c` added at its end.
#[verifier::external_body]
pub fn push_char(s: &mut String, c: char)
    ensures
        final(s)@ == old(s)@.push(c),
{
    s.push(c);
}

/// Whether `a` holds exactly the characters of `lit`.
pub fn chars_eq_str(a: &Vec<char>, lit: &str) -> (r: bool)
    ensures
        r == (a@ == lit@),
{
    let b = chars_of(lit);
    if a.len() != b.len() {
        return false;
    }
    let mut i: usize = 0;
    while i < a.len()
        invariant
            a.len() == b.len(),
            b@ == lit@,
            i <= a.len(),
            forall|j: int| 0 <= j < i ==> a@[j] == b@[j],
        decreases a.len() - i,
    {
        if a[i] != b[i] {
            return false;
        }
        i += 1;
    }
    assert(a@ =~= b@);
    true
}

/// `s` begins with `p`.
pub open spec fn starts_with(s: Seq<char>, p: Seq<char>) -> bool {
    p.len() <= s.len() && s.take(p.len() as int) == p
}

/// Whether the characters of `a` from `start` on begin with those of `lit`.
pub fn chars_start_with_str(a: &Vec<char>, start: usize, lit: &str) -> (r: bool)
    requires
        start <= a.len(),
    ensures
        r == starts_with(a@.skip(start as int), lit@),
{
    let b = chars_of(lit);
    if a.len() - start < b.len() {
        return false;
    }
    let ghost rest = a@.skip(start as int);
    let mut i: usize = 0;
    while i < b.len()
        invariant
            start + b.len() <= a.len(),
            rest == a@.skip(start as int),
            b@ == lit@,
            i <= b.len(),
            forall|j: int| 0 <= j < i ==> rest[j] == b@[j],
        decreases b.len() - i,
    {
        if a[start + i] != b[i] {
            assert(rest.take(b.len() as int)[i as int] != b@[i as int]);
            return false;
        }
        i += 1;
    }
    assert(rest.take(b.len() as int) =~= b@);
    true
}

/// A string of the characters of `a` from `start` on.
pub fn string_from_chars(a: &Vec<char>, start: usize) -> (s: String)
    requires
        start <= a.len(),
    ensures
        s@ == a@.skip(start as int),
{
    let mut s = String::new();
    let mut i = start;
    while i < a.len()
        invariant
            start <= i <= a.len(),
            s@ == a@.subrange(start as int, i as int),
        decreases a.len() - i,
    {
        push_char(&mut s, a[i]);
        assert(s@ =~= a@.subrange(start as int, i + 1));
        i += 1;
    }
    assert(s@ =~= a@.skip(start as int));
    s
}

/// The string `prefix` followed by the characters of `rest`.
pub fn concat_str(prefix: &str, rest: &str) -> (s: String)
    ensures
        s@ == prefix@ + rest@,
{
    let mut s = String::from_str(prefix);
    s.append(rest);
    s
}

/// `s` with every leading copy of `p` removed.
pub open spec fn trim_leading(s: Seq<char>, p: Seq<char>) -> Seq<char>
    decreases s.len(),
{
    if p.len() > 0 && starts_with(s, p) {
        trim_leading(s.skip(p.len() as int), p)
    } else {
        s
    }
}

/// How many characters the leading copies of `lit` take up in `a`.
pub fn leading_copies_len(a: &Vec<char>, lit: &str) -> (pos: usize)
    ensures
        pos <= a.len(),
        a@.skip(pos as int) == trim_leading(a@, lit@),
{
    let b = chars_of(lit);
    assert(a@.skip(0) =~= a@);
    if b.len() == 0 {
        return 0;
    }
    let mut pos: usize = 0;
    while chars_start_with_str(a, pos, lit)
        invariant
            pos <= a.len(),
            b@ == lit@,
            b.len() > 0,
            trim_leading(a@.skip(pos as int), lit@) == trim_leading(a@, lit@),
        decreases a.len() - pos,
    {
        let ghost rest = a@.skip(pos as int);
        assert(rest.skip(b.len() as int) =~= a@.skip(pos + b.len()));
        pos = pos + b.len();
    }
    pos
}

/// A character with Unicode's White_Space property, as
/// `char::is_whitespace` tests it.
pub open spec fn is_whitespace(c: char) -> bool {
    let n = c as u32;
    (0x09 <= n && n <= 0x0d) || n == 0x20 || n == 0x85 || n == 0xa0 || n == 0x1680 || (0x2000
        <= n && n <= 0x200a) || n == 0x2028 || n == 0x2029 || n == 0x202f || n == 0x205f || n
        == 0x3000
}

/// Whether `c` is white space.
pub fn char_is_whitespace(c: char) -> (r: bool)
    ensures
        r == is_whitespace(c),
{
    let n = c as u32;
    (0x09 <= n && n <= 0x0d) || n == 0x20 || n == 0x85 || n == 0xa0 || n == 0x1680 || (0x2000
        <= n && n <= 0x200a) || n == 0x2028 || n == 0x2029 || n == 0x202f || n == 0x205f || n
        == 0x3000
}

/// The length of the longest prefix of `s` whose characters all satisfy `p`.
pub open spec fn run_len(s: Seq<char>, p: spec_fn(char) -> bool) -> nat
    decreases s.len(),
{
    if s.len() == 0 || !p(s[0]) {
        0
    } else {
        1 + run_len(s.drop_first(), p)
    }
}

/// A prefix of length `n` that satisfies `p` throughout and ends where `p`
/// fails (or at the end) is the longest such prefix.
pub proof fn lemma_run_len(s: Seq<char>, p: spec_fn(char) -> bool, n: int)
    requires
        0 <= n <= s.len(),
        forall|k: int| 0 <= k < n ==> p(#[trigger] s[k]),
        n == s.len() || !p(s[n]),
    ensures
        run_len(s, p) == n,
    decreases n,
{
    if n > 0 {
        let t = s.drop_first();
        assert forall|k: int| 0 <= k < n - 1 implies p(#[trigger] t[k]) by {
            assert(t[k] == s[k + 1]);
            assert(p(s[k + 1]));
        }
        if n < s.len() {
            assert(t[n - 1] == s[n]);
        }
        lemma_run_len(t, p, n - 1);
        assert(p(s[0]));
    }
}

/// White space.
pub open spec fn space_char() -> spec_fn(char) -> bool {
    |c: char| is_whitespace(c)
}

/// Anything but white space.
pub open spec fn word_char() -> spec_fn(char) -> bool {
    |c: char| !is_whitespace(c)
}

/// Anything but a line feed.
pub open spec fn line_char() -> spec_fn(char) -> bool {
    |c: char| c != '\n'
}

/// Turns the facts gathered by a scan into the length of the run.
proof fn lemma_scan_run(v: Seq<char>, start: int, end: int, p: spec_fn(char) -> bool)
    requires
        0 <= start <= end <= v.len(),
        forall|k: int| start <= k < end ==> p(#[trigger] v[k]),
        end == v.len() || !p(v[end]),
    ensures
        end - start == run_len(v.skip(start), p),
{
    let t = v.skip(start);
    assert forall|k: int| 0 <= k < end - start implies p(#[trigger] t[k]) by {
        assert(t[k] == v[start + k]);
    }
    if end < v.len() {
        assert(t[end - start] == v[end]);
    }
    lemma_run_len(t, p, end - start);
}

/// The end of the run of white space that starts at `start`.
pub fn space_run_end(v: &Vec<char>, start: usize) -> (end: usize)
    requires
        start <= v.len(),
    ensures
        start <= end <= v.len(),
        end - start == run_len(v@.skip(start as int), space_char()),
{
    let mut end = start;
    while end < v.len() && char_is_whitespace(v[end])
        invariant
            start <= end <= v.len(),
            forall|k: int| start <= k < end ==> is_whitespace(#[trigger] v@[k]),
        decreases v.len() - end,
    {
        end += 1;
    }
    proof {
        lemma_scan_run(v@, start as int, end as int, space_char());
    }
    end
}

/// The end of the run of characters other than white space that starts at `start`.
pub fn word_run_end(v: &Vec<char>, start: usize) -> (end: usize)
    requires
        start <= v.len(),
    ensures
        start <= end <= v.len(),
        end - start == run_len(v@.skip(start as int), word_char()),
{
    let mut end = start;
    while end < v.len() && !char_is_whitespace(v[end])
        invariant
            start <= end <= v.len(),
            forall|k: int| start <= k < end ==> !is_whitespace(#[trigger] v@[k]),
        decreases v.len() - end,
    {
        end += 1;
    }
    proof {
        lemma_scan_run(v@, start as int, end as int, word_char());
    }
    end
}

/// The end of the line that starts at `start`: the next line feed, or the end.
pub fn line_run_end(v: &Vec<char>, start: usize) -> (end: usize)
    requires
        start <= v.len(),
    ensures
        start <= end <= v.len(),
        end - start == run_len(v@.skip(start as int), line_char()),
{
    let mut end = start;
    while end < v.len() && v[end] != '\n'
        invariant
            start <= end <= v.len(),
            forall|k: int| start <= k < end ==> #[trigger] v@[k] != '\n',
        decreases v.len() - end,
    {
        end += 1;
    }
    proof {
        lemma_scan_run(v@, start as int, end as int, line_char());
    }
    end
}

pub proof fn lemma_run_len_bound(s: Seq<char>, p: spec_fn(char) -> bool)
    ensures
        run_len(s, p) <= s.len(),
    decreases s.len(),
{
    if s.len() > 0 && p(s[0]) {
        lemma_run_len_bound(s.drop_first(), p);
    }
}

/// A line without the carriage return that ended it.
pub open spec fn strip_cr(l: Seq<char>) -> Seq<char> {
    if l.len() > 0 && l.last() == '\r' {
        l.drop_last()
    } else {
        l
    }
}

/// The lines of `s`, as `str::lines` gives them: split at each line feed,
/// a carriage return right before it dropped, and no empty last line after
/// a final line feed.
pub open spec fn lines(s: Seq<char>) -> Seq<Seq<char>>
    decreases s.len(),
{
    if s.len() == 0 {
        Seq::empty()
    } else {
        let n = run_len(s, line_char()) as int;
        if n >= s.len() {
            seq![s]
        } else {
            seq![strip_cr(s.take(n))] + lines(s.skip(n + 1))
        }
    }
}

/// The words of `s`, as `str::split_whitespace` gives them: the maximal
/// runs of characters other than white space.
pub open spec fn words(s: Seq<char>) -> Seq<Seq<char>>
    decreases s.len(),
{
    if s.len() == 0 {
        Seq::empty()
    } else if is_whitespace(s[0]) {
        words(s.drop_first())
    } else {
        let n = run_len(s, word_char()) as int;
        proof {
            lemma_run_len_bound(s, word_char());
            assert(run_len(s, word_char()) == 1 + run_len(s.drop_first(), word_char()));
        }
        seq![s.take(n)] + words(s.skip(n))
    }
}

/// `s` without its leading white space.
pub open spec fn trim_start(s: Seq<char>) -> Seq<char>
    decreases s.len(),
{
    if s.len() > 0 && is_whitespace(s[0]) {
        trim_start(s.drop_first())
    } else {
        s
    }
}

/// `s` without its trailing white space.
pub open spec fn trim_end(s: Seq<char>) -> Seq<char>
    decreases s.len(),
{
    if s.len() > 0 && is_whitespace(s.last()) {
        trim_end(s.drop_last())
    } else {
        s
    }
}

/// `s` without its leading and trailing white space, as `str::trim` gives it.
pub open spec fn trim(s: Seq<char>) -> Seq<char> {
    trim_end(trim_start(s))
}

/// The characters of `v` from `lo` up to `hi`.
pub fn copy_range(v: &Vec<char>, lo: usize, hi: usize) -> (r: Vec<char>)
    requires
        lo <= hi <= v.len(),
    ensures
        r@ == v@.subrange(lo as int, hi as int),
{
    let mut r: Vec<char> = Vec::new();
    let mut i = lo;
    while i < hi
        invariant
            lo <= i <= hi <= v.len(),
            r@ == v@.subrange(lo as int, i as int),
        decreases hi - i,
    {
        r.push(v[i]);
        assert(r@ =~= v@.subrange(lo as int, i + 1));
        i += 1;
    }
    r
}

proof fn lemma_trim_start(s: Seq<char>, n: int)
    requires
        0 <= n <= s.len(),
        forall|k: int| 0 <= k < n ==> is_whitespace(#[trigger] s[k]),
        n == s.len() || !is_whitespace(s[n]),
    ensures
        trim_start(s) == s.skip(n),
    decreases n,
{
    if n == 0 {
        assert(s.skip(0) =~= s);
    } else {
        let t = s.drop_first();
        assert forall|k: int| 0 <= k < n - 1 implies is_whitespace(#[trigger] t[k]) by {
            assert(t[k] == s[k + 1]);
            assert(is_whitespace(s[k + 1]));
        }
        if n < s.len() {
            assert(t[n - 1] == s[n]);
        }
        lemma_trim_start(t, n - 1);
        assert(t.skip(n - 1) =~= s.skip(n));
        assert(is_whitespace(s[0]));
    }
}

proof fn lemma_trim_end(s: Seq<char>, n: int)
    requires
        0 <= n <= s.len(),
        forall|k: int| n <= k < s.len() ==> is_whitespace(#[trigger] s[k]),
        n == 0 || !is_whitespace(s[n - 1]),
    ensures
        trim_end(s) == s.take(n),
    decreases s.len() - n,
{
    if n == s.len() {
        assert(s.take(n) =~= s);
        if s.len() > 0 {
            assert(s.last() == s[n - 1]);
        }
    } else {
        let t = s.drop_last();
        assert(is_whitespace(s[s.len() - 1]));
        assert forall|k: int| n <= k < t.len() implies is_whitespace(#[trigger] t[k]) by {
            assert(t[k] == s[k]);
        }
        if n > 0 {
            assert(t[n - 1] == s[n - 1]);
        }
        lemma_trim_end(t, n);
        assert(t.take(n) =~= s.take(n));
    }
}

/// `v` without its leading and trailing white space.
pub fn trim_chars(v: &Vec<char>) -> (r: Vec<char>)
    ensures
        r@ == trim(v@),
{
    let lo = space_run_end(v, 0);
    let mut hi = v.len();
    while hi > lo && char_is_whitespace(v[hi - 1])
        invariant
            lo <= hi <= v.len(),
            forall|k: int| hi <= k < v.len() ==> is_whitespace(#[trigger] v@[k]),
        decreases hi,
    {
        hi -= 1;
    }
    let ghost t = v@.skip(lo as int);
    proof {
        assert(v@.skip(0) =~= v@);
        lemma_run_len_bound(v@, space_char());
        assert forall|k: int| 0 <= k < lo implies is_whitespace(#[trigger] v@[k]) by {
            lemma_run_prefix(v@, space_char(), k);
        }
        if (lo as int) < v.len() {
            lemma_run_stop(v@, space_char());
        }
        lemma_trim_start(v@, lo as int);
        assert forall|k: int| hi - lo <= k < t.len() implies is_whitespace(#[trigger] t[k]) by {
            assert(t[k] == v@[lo + k]);
        }
        if hi > lo {
            assert(t[hi - lo - 1] == v@[hi - 1]);
        }
        lemma_trim_end(t, hi - lo);
        assert(t.take(hi - lo) =~= v@.subrange(lo as int, hi as int));
    }
    copy_range(v, lo, hi)
}

/// Every character inside the run satisfies its predicate.
pub proof fn lemma_run_prefix(s: Seq<char>, p: spec_fn(char) -> bool, k: int)
    requires
        0 <= k < run_len(s, p),
    ensures
        p(s[k]),
    decreases k,
{
    lemma_run_len_bound(s, p);
    if k > 0 {
        lemma_run_prefix(s.drop_first(), p, k - 1);
        assert(s.drop_first()[k - 1] == s[k]);
    }
}

/// The character right after the run, if any, fails its predicate.
pub proof fn lemma_run_stop(s: Seq<char>, p: spec_fn(char) -> bool)
    requires
        run_len(s, p) < s.len(),
    ensures
        !p(s[run_len(s, p) as int]),
    decreases s.len(),
{
    if s.len() > 0 && p(s[0]) {
        lemma_run_stop(s.drop_first(), p);
        assert(s.drop_first()[run_len(s.drop_first(), p) as int] == s[run_len(s, p) as int]);
    }
}

/// The character sequences of a list of character vectors.
pub open spec fn views(vs: Seq<Vec<char>>) -> Seq<Seq<char>> {
    vs.map_values(|l: Vec<char>| l@)
}

/// The lines of `v`.
pub fn split_lines(v: &Vec<char>) -> (r: Vec<Vec<char>>)
    ensures
        views(r@) == lines(v@),
{
    let mut out: Vec<Vec<char>> = Vec::new();
    let mut pos: usize = 0;
    assert(v@.skip(0) =~= v@);
    while pos < v.len()
        invariant
            pos <= v.len(),
            lines(v@) == views(out@) + lines(v@.skip(pos as int)),
        decreases v.len() - pos,
    {
        let end = line_run_end(v, pos);
        let ghost t = v@.skip(pos as int);
        let ghost before = out@;
        if end == v.len() {
            let line = copy_range(v, pos, end);
            assert(line@ =~= t);
            out.push(line);
            assert(views(out@) =~= views(before) + seq![t]);
            assert(v@.skip(v.len() as int) =~= Seq::<char>::empty());
            pos = end;
        } else {
            let mut line = copy_range(v, pos, end);
            assert(line@ =~= t.take(end - pos));
            if line.len() > 0 && line[line.len() - 1] == '\r' {
                line.pop();
                assert(line@ =~= strip_cr(t.take(end - pos)));
            }
            out.push(line);
            assert(views(out@) =~= views(before) + seq![strip_cr(t.take(end - pos))]);
            assert(t.skip(end - pos + 1) =~= v@.skip(end + 1));
            pos = end + 1;
        }
    }
    assert(v@.skip(pos as int) =~= Seq::<char>::empty());
    assert(views(out@) + Seq::<Seq<char>>::empty() =~= views(out@));
    out
}

/// The words of `v`.
pub fn split_words(v: &Vec<char>) -> (r: Vec<Vec<char>>)
    ensures
        views(r@) == words(v@),
{
    let mut out: Vec<Vec<char>> = Vec::new();
    let mut pos: usize = 0;
    assert(v@.skip(0) =~= v@);
    while pos < v.len()
        invariant
            pos <= v.len(),
            words(v@) == views(out@) + words(v@.skip(pos as int)),
        decreases v.len() - pos,
    {
        let ghost t = v@.skip(pos as int);
        assert(t[0] == v@[pos as int]);
        if char_is_whitespace(v[pos]) {
            assert(t.drop_first() =~= v@.skip(pos + 1));
            pos += 1;
        } else {
            let end = word_run_end(v, pos);
            let ghost before = out@;
            let word = copy_range(v, pos, end);
            assert(word@ =~= t.take(end - pos));
            out.push(word);
            assert(views(out@) =~= views(before) + seq![t.take(end - pos)]);
            assert(t.skip(end - pos) =~= v@.skip(end as int));
            pos = end;
        }
    }
    assert(v@.skip(pos as int) =~= Seq::<char>::empty());
    assert(views(out@) + Seq::<Seq<char>>::empty() =~= views(out@));
    out
}

/// `v` without its leading white space.
pub fn trim_start_chars(v: &Vec<char>) -> (r: Vec<char>)
    ensures
        r@ == trim_start(v@),
{
    let lo = space_run_end(v, 0);
    proof {
        assert(v@.skip(0) =~= v@);
        lemma_run_len_bound(v@, space_char());
        assert forall|k: int| 0 <= k < lo implies is_whitespace(#[trigger] v@[k]) by {
            lemma_run_prefix(v@, space_char(), k);
        }
        if (lo as int) < v.len() {
            lemma_run_stop(v@, space_char());
        }
        lemma_trim_start(v@, lo as int);
        assert(v@.skip(lo as int) =~= v@.subrange(lo as int, v.len() as int));
    }
    copy_range(v, lo, v.len())
}

/// The items `ws` joined by the separator `sep`.
pub open spec fn join_with(ws: Seq<Seq<char>>, sep: char) -> Seq<char>
    decreases ws.len(),
{
    if ws.len() == 0 {
        Seq::empty()
    } else if ws.len() == 1 {
        ws[0]
    } else {
        join_with(ws.drop_last(), sep) + seq![sep] + ws.last()
    }
}

/// The character sequences of a list of strings.
pub open spec fn string_views(vs: Seq<String>) -> Seq<Seq<char>> {
    vs.map_values(|s: String| s@)
}

/// The strings `items` joined by the separator `sep`.
pub fn join_strings(items: &Vec<String>, sep: char) -> (s: String)
    ensures
        s@ == join_with(string_views(items@), sep),
{
    let ghost all = string_views(items@);
    let mut s = String::new();
    let mut i: usize = 0;
    assert(all.take(0) =~= Seq::<Seq<char>>::empty());
    while i < items.len()
        invariant
            i <= items.len(),
            all == string_views(items@),
            s@ == join_with(all.take(i as int), sep),
        decreases items.len() - i,
    {
        let ghost before = all.take(i as int);
        let ghost after = all.take(i + 1);
        assert(after.drop_last() =~= before);
        assert(after.last() == items@[i as int]@);
        if i > 0 {
            push_char(&mut s, sep);
        }
        s.append(items[i].as_str());
        proof {
            if i > 0 {
                assert(s@ =~= join_with(before, sep) + seq![sep] + items@[i as int]@);
            } else {
                assert(after.len() == 1);
                assert(s@ =~= items@[i as int]@);
            }
        }
        i += 1;
    }
    assert(all.take(items.len() as int) =~= all);
    s
}

} // verus!
