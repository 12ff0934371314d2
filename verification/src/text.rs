use vstd::prelude::*;

verus! {

/// The characters with the Unicode `White_Space` property, which `str::trim`
/// strips.
pub open spec fn is_whitespace(c: char) -> bool {
    let u = c as u32;
    ||| 0x09 <= u <= 0x0D
    ||| u == 0x20
    ||| u == 0x85
    ||| u == 0xA0
    ||| u == 0x1680
    ||| 0x2000 <= u <= 0x200A
    ||| u == 0x2028
    ||| u == 0x2029
    ||| u == 0x202F
    ||| u == 0x205F
    ||| u == 0x3000
}

/// The characters of Unicode general category `Cc`.
pub open spec fn is_control(c: char) -> bool {
    let u = c as u32;
    u <= 0x1F || (0x7F <= u && u <= 0x9F)
}

pub fn char_is_whitespace(c: char) -> (res: bool)
    ensures
        res == is_whitespace(c),
{
    let u = c as u32;
    (0x09 <= u && u <= 0x0D) || u == 0x20 || u == 0x85 || u == 0xA0 || u == 0x1680 || (0x2000
        <= u && u <= 0x200A) || u == 0x2028 || u == 0x2029 || u == 0x202F || u == 0x205F || u
        == 0x3000
}

pub fn char_is_control(c: char) -> (res: bool)
    ensures
        res == is_control(c),
{
    let u = c as u32;
    u <= 0x1F || (0x7F <= u && u <= 0x9F)
}

/// `s` without its leading whitespace.
pub open spec fn trim_start(s: Seq<char>) -> Seq<char>
    decreases s.len(),
{
    if s.len() > 0 && is_whitespace(s[0]) {
        trim_start(s.drop_first())
    } else {
        s
    }
}

/// `s` without its trailing whitespace.
pub open spec fn trim_end(s: Seq<char>) -> Seq<char>
    decreases s.len(),
{
    if s.len() > 0 && is_whitespace(s.last()) {
        trim_end(s.drop_last())
    } else {
        s
    }
}

/// `s` without leading and trailing whitespace, as `str::trim` gives it.
pub open spec fn trim(s: Seq<char>) -> Seq<char> {
    trim_end(trim_start(s))
}

/// The pieces of `s` read so far when `s` is split at each `sep`: those
/// already closed by a separator, and the one still open.
pub open spec fn split_acc(s: Seq<char>, sep: char) -> (Seq<Seq<char>>, Seq<char>)
    decreases s.len(),
{
    if s.len() == 0 {
        (seq![], seq![])
    } else {
        let (done, cur) = split_acc(s.drop_last(), sep);
        if s.last() == sep {
            (done.push(cur), seq![])
        } else {
            (done, cur.push(s.last()))
        }
    }
}

/// The pieces of `s` between occurrences of `sep`, as `str::split` gives
/// them: one more piece than there are separators.
pub open spec fn split(s: Seq<char>, sep: char) -> Seq<Seq<char>> {
    let (done, cur) = split_acc(s, sep);
    done.push(cur)
}

/// Each piece trimmed, with the pieces that trim to nothing left out.
pub open spec fn trimmed_nonempty(pieces: Seq<Seq<char>>) -> Seq<Seq<char>>
    decreases pieces.len(),
{
    if pieces.len() == 0 {
        seq![]
    } else {
        let rest = trimmed_nonempty(pieces.drop_last());
        let t = trim(pieces.last());
        if t.len() > 0 {
            rest.push(t)
        } else {
            rest
        }
    }
}

/// The items of a comma-separated list: split at each comma, trimmed, and
/// empty items skipped.
pub open spec fn list_items(s: Seq<char>) -> Seq<Seq<char>> {
    trimmed_nonempty(split(s, ','))
}

/// The views of a sequence of character vectors.
pub open spec fn views(v: Seq<Vec<char>>) -> Seq<Seq<char>> {
    v.map_values(|x: Vec<char>| x@)
}

/// Collects characters into a `String` (`String: FromIterator<char>`); the
/// contract claims that the string holds exactly those characters, in order.
#[verifier::external_body]
pub(crate) fn string_from_chars(v: &Vec<char>) -> (res: String)
    ensures
        res@ == v@,
{
    v.iter().collect()
}

/// The characters of `s`, in order.
pub fn chars_of(s: &str) -> (res: Vec<char>)
    ensures
        res@ == s@,
{
    let n = s.unicode_len();
    let mut res: Vec<char> = Vec::new();
    let mut i: usize = 0;
    while i < n
        invariant
            n == s@.len(),
            i <= n,
            res@ == s@.take(i as int),
        decreases n - i,
    {
        let c = s.get_char(i);
        res.push(c);
        i = i + 1;
        assert(res@ =~= s@.take(i as int));
    }
    assert(res@ =~= s@);
    res
}

/// The characters of `v` from `lo` up to `hi`.
pub fn copy_range(v: &Vec<char>, lo: usize, hi: usize) -> (res: Vec<char>)
    requires
        lo <= hi <= v@.len(),
    ensures
        res@ == v@.subrange(lo as int, hi as int),
{
    let mut res: Vec<char> = Vec::new();
    let mut i = lo;
    while i < hi
        invariant
            lo <= i <= hi <= v@.len(),
            res@ == v@.subrange(lo as int, i as int),
        decreases hi - i,
    {
        res.push(v[i]);
        i = i + 1;
        assert(res@ =~= v@.subrange(lo as int, i as int));
    }
    res
}

proof fn lemma_trim_start_skip(s: Seq<char>, i: int)
    requires
        0 <= i <= s.len(),
        forall|k: int| 0 <= k < i ==> is_whitespace(#[trigger] s[k]),
    ensures
        trim_start(s) == trim_start(s.skip(i)),
    decreases i,
{
    if i > 0 {
        assert(s.drop_first().skip(i - 1) =~= s.skip(i));
        assert forall|k: int| 0 <= k < i - 1 implies is_whitespace(#[trigger] s.drop_first()[k]) by {
            assert(s.drop_first()[k] == s[k + 1]);
        }
        lemma_trim_start_skip(s.drop_first(), i - 1);
    } else {
        assert(s.skip(0) =~= s);
    }
}

proof fn lemma_trim_end_take(s: Seq<char>, j: int)
    requires
        0 <= j <= s.len(),
        forall|k: int| j <= k < s.len() ==> is_whitespace(#[trigger] s[k]),
    ensures
        trim_end(s) == trim_end(s.take(j)),
    decreases s.len() - j,
{
    if j < s.len() {
        assert(s.drop_last().take(j) =~= s.take(j));
        lemma_trim_end_take(s.drop_last(), j);
    } else {
        assert(s.take(j) =~= s);
    }
}

/// `s` without leading and trailing whitespace.
pub fn trim_chars(s: &Vec<char>) -> (res: Vec<char>)
    ensures
        res@ == trim(s@),
{
    let n = s.len();
    let mut i: usize = 0;
    while i < n && char_is_whitespace(s[i])
        invariant
            n == s@.len(),
            i <= n,
            forall|k: int| 0 <= k < i ==> is_whitespace(#[trigger] s@[k]),
        decreases n - i,
    {
        i = i + 1;
    }
    proof {
        lemma_trim_start_skip(s@, i as int);
    }
    let ghost t = s@.skip(i as int);
    assert(trim_start(t) == t);
    let mut j: usize = n;
    while j > i && char_is_whitespace(s[j - 1])
        invariant
            n == s@.len(),
            i <= j <= n,
            t == s@.skip(i as int),
            forall|k: int| j - i <= k < t.len() ==> is_whitespace(#[trigger] t[k]),
        decreases j,
    {
        j = j - 1;
    }
    proof {
        lemma_trim_end_take(t, j - i);
        let u = t.take(j - i);
        if u.len() > 0 {
            assert(u.last() == s@[j - 1]);
        }
        assert(u =~= s@.subrange(i as int, j as int));
    }
    copy_range(s, i, j)
}

/// The items of the comma-separated list `s`: split at each comma, trimmed,
/// and empty items skipped.
pub fn comma_list_items(s: &str) -> (res: Vec<Vec<char>>)
    ensures
        views(res@) == list_items(s@),
{
    let cs = chars_of(s);
    let n = cs.len();
    let mut items: Vec<Vec<char>> = Vec::new();
    let mut cur: Vec<char> = Vec::new();
    let mut i: usize = 0;
    while i < n
        invariant
            n == cs@.len(),
            cs@ == s@,
            i <= n,
            views(items@) == trimmed_nonempty(split_acc(cs@.take(i as int), ',').0),
            cur@ == split_acc(cs@.take(i as int), ',').1,
        decreases n - i,
    {
        let c = cs[i];
        let ghost prev = cs@.take(i as int);
        assert(cs@.take(i + 1).drop_last() =~= prev);
        if c == ',' {
            let t = trim_chars(&cur);
            let ghost done = split_acc(prev, ',').0;
            assert(done.push(cur@).drop_last() =~= done);
            if t.len() > 0 {
                items.push(t);
                assert(views(items@) =~= trimmed_nonempty(done).push(t@));
            }
            cur = Vec::new();
        } else {
            cur.push(c);
        }
        i = i + 1;
    }
    assert(cs@.take(n as int) =~= cs@);
    let t = trim_chars(&cur);
    let ghost done = split_acc(cs@, ',').0;
    assert(done.push(cur@).drop_last() =~= done);
    if t.len() > 0 {
        items.push(t);
        assert(views(items@) =~= trimmed_nonempty(done).push(t@));
    }
    items
}

} // verus!

verus! {

proof fn lemma_split_acc_after_separator(s: Seq<char>, t: Seq<char>, sep: char)
    ensures
        split_acc(s.push(sep) + t, sep) == (split(s, sep) + split_acc(t, sep).0, split_acc(t, sep).1),
    decreases t.len(),
{
    if t.len() == 0 {
        assert(s.push(sep) + t =~= s.push(sep));
        assert(s.push(sep).drop_last() =~= s);
        assert(split(s, sep) + Seq::<Seq<char>>::empty() =~= split(s, sep));
    } else {
        let u = t.drop_last();
        lemma_split_acc_after_separator(s, u, sep);
        assert((s.push(sep) + t).drop_last() =~= s.push(sep) + u);
        assert((s.push(sep) + t).last() == t.last());
        let (dt, ct) = split_acc(u, sep);
        if t.last() == sep {
            assert((split(s, sep) + dt).push(ct) =~= split(s, sep) + dt.push(ct));
        }
    }
}

/// Splitting two texts joined by the separator gives the pieces of the
/// first followed by the pieces of the second.
pub proof fn lemma_split_joined(s: Seq<char>, t: Seq<char>, sep: char)
    ensures
        split(s + seq![sep] + t, sep) == split(s, sep) + split(t, sep),
{
    assert(s + seq![sep] + t =~= s.push(sep) + t);
    lemma_split_acc_after_separator(s, t, sep);
    let (dt, ct) = split_acc(t, sep);
    assert((split(s, sep) + dt).push(ct) =~= split(s, sep) + dt.push(ct));
}

/// Trimming and dropping empty pieces works piece by piece.
pub proof fn lemma_trimmed_nonempty_concat(x: Seq<Seq<char>>, y: Seq<Seq<char>>)
    ensures
        trimmed_nonempty(x + y) == trimmed_nonempty(x) + trimmed_nonempty(y),
    decreases y.len(),
{
    if y.len() == 0 {
        assert(x + y =~= x);
        assert(trimmed_nonempty(x) + trimmed_nonempty(y) =~= trimmed_nonempty(x));
    } else {
        lemma_trimmed_nonempty_concat(x, y.drop_last());
        assert((x + y).drop_last() =~= x + y.drop_last());
        assert((x + y).last() == y.last());
        let t = trim(y.last());
        if t.len() > 0 {
            assert((trimmed_nonempty(x) + trimmed_nonempty(y.drop_last())).push(t) =~= trimmed_nonempty(x)
                + trimmed_nonempty(y.drop_last()).push(t));
        }
    }
}

/// The items of two comma-separated lists joined by a comma are the items of
/// the first followed by those of the second.
pub proof fn lemma_list_items_joined(s: Seq<char>, t: Seq<char>)
    ensures
        list_items(s + seq![','] + t) == list_items(s) + list_items(t),
{
    lemma_split_joined(s, t, ',');
    lemma_trimmed_nonempty_concat(split(s, ','), split(t, ','));
}

} // verus!
