//! Character-level string helpers shared by the market, sender and receiver.
use vstd::prelude::*;

verus! {

/// `s` with every trailing occurrence of `c` removed (what `str::trim_end_matches` does
/// for a single character).
pub open spec fn trim_end_char(s: Seq<char>, c: char) -> Seq<char>
    decreases s.len(),
{
    if s.len() > 0 && s.last() == c {
        trim_end_char(s.drop_last(), c)
    } else {
        s
    }
}

/// `s` with every leading occurrence of `c` removed (what `str::trim_start_matches` does
/// for a single character).
pub open spec fn trim_start_char(s: Seq<char>, c: char) -> Seq<char>
    decreases s.len(),
{
    if s.len() > 0 && s[0] == c {
        trim_start_char(s.drop_first(), c)
    } else {
        s
    }
}

/// The pieces of `s` between occurrences of `sep`, empty pieces included, in order
/// (what `str::split` yields for a single character): one more piece than there are
/// separators.
pub open spec fn split_on(s: Seq<char>, sep: char) -> Seq<Seq<char>>
    decreases s.len(),
{
    if s.len() == 0 {
        seq![Seq::<char>::empty()]
    } else {
        let parts = split_on(s.drop_last(), sep);
        if s.last() == sep {
            parts.push(Seq::<char>::empty())
        } else {
            parts.update(parts.len() - 1, parts.last().push(s.last()))
        }
    }
}

/// Every piece of `parts`, each followed by `sep`.
pub open spec fn join_terminated(parts: Seq<Seq<char>>, sep: char) -> Seq<char>
    decreases parts.len(),
{
    if parts.len() == 0 {
        Seq::<char>::empty()
    } else {
        join_terminated(parts.drop_last(), sep) + parts.last().push(sep)
    }
}

/// The pieces of `parts` with `sep` between each two neighbours.
pub open spec fn join_with(parts: Seq<Seq<char>>, sep: char) -> Seq<char> {
    if parts.len() == 0 {
        Seq::<char>::empty()
    } else {
        join_terminated(parts.drop_last(), sep) + parts.last()
    }
}

pub proof fn lemma_split_on_nonempty(s: Seq<char>, sep: char)
    ensures
        split_on(s, sep).len() >= 1,
    decreases s.len(),
{
    if s.len() > 0 {
        lemma_split_on_nonempty(s.drop_last(), sep);
    }
}

/// Splitting `t` followed by text without separators gives the pieces of `t`, the last
/// one extended by that text.
pub proof fn lemma_split_on_append(t: Seq<char>, y: Seq<char>, sep: char)
    requires
        !y.contains(sep),
    ensures
        split_on(t + y, sep) == split_on(t, sep).update(
            split_on(t, sep).len() - 1,
            split_on(t, sep).last() + y,
        ),
    decreases y.len(),
{
    lemma_split_on_nonempty(t, sep);
    let parts = split_on(t, sep);
    if y.len() == 0 {
        assert(t + y =~= t);
        assert(parts.last() + y =~= parts.last());
        assert(parts.update(parts.len() - 1, parts.last() + y) =~= parts);
    } else {
        let y0 = y.drop_last();
        let c = y.last();
        assert(!y0.contains(sep)) by {
            if y0.contains(sep) {
                let i = choose|i: int| 0 <= i < y0.len() && y0[i] == sep;
                assert(y[i] == sep);
            }
        }
        assert(c != sep) by {
            assert(y[y.len() - 1] == c);
        }
        lemma_split_on_append(t, y0, sep);
        assert((t + y).drop_last() =~= t + y0);
        assert((t + y).last() == c);
        assert(parts.last() + y =~= (parts.last() + y0).push(c));
        assert(split_on(t + y, sep) =~= parts.update(parts.len() - 1, parts.last() + y));
    }
}

/// Splitting pieces that hold no separator, each followed by the separator, gives back
/// the pieces and an empty last one.
proof fn lemma_split_on_join_terminated(parts: Seq<Seq<char>>, sep: char)
    requires
        forall|i: int| 0 <= i < parts.len() ==> !(#[trigger] parts[i]).contains(sep),
    ensures
        split_on(join_terminated(parts, sep), sep) == parts.push(Seq::<char>::empty()),
    decreases parts.len(),
{
    if parts.len() == 0 {
        assert(split_on(Seq::<char>::empty(), sep) =~= parts.push(Seq::<char>::empty()));
    } else {
        let init = parts.drop_last();
        let p = parts.last();
        let j = join_terminated(init, sep);
        lemma_split_on_join_terminated(init, sep);
        assert(!p.contains(sep)) by {
            assert(parts[parts.len() - 1] == p);
        }
        lemma_split_on_append(j, p, sep);
        let with_p = init.push(Seq::<char>::empty()).update(init.len() as int, Seq::<char>::empty() + p);
        assert(with_p =~= init.push(p));
        assert(j + p.push(sep) =~= (j + p).push(sep));
        assert((j + p).push(sep).drop_last() =~= j + p);
        assert(init.push(p) =~= parts);
        assert(split_on(join_terminated(parts, sep), sep) =~= parts.push(Seq::<char>::empty()));
    }
}

/// Splitting pieces that hold no separator, joined by it, gives back the pieces.
pub proof fn lemma_split_on_join_with(parts: Seq<Seq<char>>, sep: char)
    requires
        parts.len() >= 1,
        forall|i: int| 0 <= i < parts.len() ==> !(#[trigger] parts[i]).contains(sep),
    ensures
        split_on(join_with(parts, sep), sep) == parts,
{
    let init = parts.drop_last();
    let last = parts.last();
    assert forall|i: int| 0 <= i < init.len() implies !(#[trigger] init[i]).contains(sep) by {
        assert(init[i] == parts[i]);
    }
    lemma_split_on_join_terminated(init, sep);
    assert(!last.contains(sep)) by {
        assert(parts[parts.len() - 1] == last);
    }
    lemma_split_on_append(join_terminated(init, sep), last, sep);
    let r = init.push(Seq::<char>::empty()).update(init.len() as int, Seq::<char>::empty() + last);
    assert(r =~= parts);
}

/// What trimming trailing `c`s leaves is a prefix of `s`, and only `c`s follow it.
pub proof fn lemma_trim_end_shape(s: Seq<char>, c: char)
    ensures
        trim_end_char(s, c).len() <= s.len(),
        trim_end_char(s, c) == s.subrange(0, trim_end_char(s, c).len() as int),
        forall|k: int| trim_end_char(s, c).len() <= k < s.len() ==> s[k] == c,
    decreases s.len(),
{
    if s.len() > 0 && s.last() == c {
        lemma_trim_end_shape(s.drop_last(), c);
        let t = trim_end_char(s, c);
        assert(s.drop_last().subrange(0, t.len() as int) =~= s.subrange(0, t.len() as int));
        assert forall|k: int| t.len() <= k < s.len() implies s[k] == c by {
            if k < s.len() - 1 {
                assert(s.drop_last()[k] == s[k]);
            }
        }
    } else {
        assert(s.subrange(0, s.len() as int) =~= s);
    }
}

/// `n` is where the run of `c`s that ends `s` starts: only `c`s come from `n` on, and
/// the character before `n`, if there is one, is not `c`.
pub open spec fn trailing_run_start(s: Seq<char>, c: char, n: int) -> bool {
    &&& 0 <= n <= s.len()
    &&& forall|k: int| n <= k < s.len() ==> s[k] == c
    &&& n == 0 || s[n - 1] != c
}

/// Trimming trailing `c`s keeps exactly what comes before the run of `c`s that ends `s`.
pub proof fn lemma_trim_end_is_before_trailing_run(s: Seq<char>, c: char, n: int)
    requires
        trailing_run_start(s, c, n),
    ensures
        trim_end_char(s, c) == s.subrange(0, n),
    decreases s.len(),
{
    if s.len() > 0 && s.last() == c {
        assert(n < s.len()) by {
            if n == s.len() {
                assert(s[n - 1] == s.last());
            }
        }
        let d = s.drop_last();
        assert forall|k: int| n <= k < d.len() implies d[k] == c by {
            assert(d[k] == s[k]);
        }
        if n > 0 {
            assert(d[n - 1] == s[n - 1]);
        }
        lemma_trim_end_is_before_trailing_run(d, c, n);
        assert(d.subrange(0, n) =~= s.subrange(0, n));
    } else {
        assert(n == s.len()) by {
            if n < s.len() {
                assert(s[s.len() - 1] == c);
            }
        }
        assert(s.subrange(0, n) =~= s);
    }
}

/// Every text ends in a run of `c`s (maybe an empty one), which starts where trimming
/// the trailing `c`s ends.
pub proof fn lemma_trailing_run_exists(s: Seq<char>, c: char)
    ensures
        trailing_run_start(s, c, trim_end_char(s, c).len() as int),
    decreases s.len(),
{
    if s.len() > 0 && s.last() == c {
        let d = s.drop_last();
        lemma_trailing_run_exists(d, c);
        let n = trim_end_char(d, c).len() as int;
        assert forall|k: int| n <= k < s.len() implies s[k] == c by {
            if k < d.len() {
                assert(d[k] == s[k]);
            }
        }
        if n > 0 {
            assert(d[n - 1] == s[n - 1]);
        }
    }
}

/// `p` is where the run of `c`s that starts `s` ends: only `c`s come before `p`, and the
/// character at `p`, if there is one, is not `c`.
pub open spec fn leading_run_end(s: Seq<char>, c: char, p: int) -> bool {
    &&& 0 <= p <= s.len()
    &&& forall|k: int| 0 <= k < p ==> s[k] == c
    &&& p == s.len() || s[p] != c
}

/// Trimming leading `c`s keeps exactly what comes after the run of `c`s that starts `s`.
pub proof fn lemma_trim_start_is_after_leading_run(s: Seq<char>, c: char, p: int)
    requires
        leading_run_end(s, c, p),
    ensures
        trim_start_char(s, c) == s.subrange(p, s.len() as int),
    decreases s.len(),
{
    if s.len() > 0 && s[0] == c {
        assert(p > 0);
        let d = s.drop_first();
        assert forall|k: int| 0 <= k < p - 1 implies d[k] == c by {
            assert(d[k] == s[k + 1]);
        }
        if p - 1 < d.len() {
            assert(d[p - 1] == s[p]);
        }
        lemma_trim_start_is_after_leading_run(d, c, p - 1);
        assert(d.subrange(p - 1, d.len() as int) =~= s.subrange(p, s.len() as int));
    } else {
        assert(p == 0) by {
            if p > 0 {
                assert(s[0] == c);
            }
        }
        assert(s.subrange(0, s.len() as int) =~= s);
    }
}

/// What trimming leading `c`s leaves is a suffix of `s` that does not start with `c`,
/// and only `c`s come before it.
pub proof fn lemma_trim_start_shape(s: Seq<char>, c: char)
    ensures
        trim_start_char(s, c).len() <= s.len(),
        trim_start_char(s, c) == s.subrange(
            s.len() - trim_start_char(s, c).len(),
            s.len() as int,
        ),
        forall|k: int| 0 <= k < s.len() - trim_start_char(s, c).len() ==> s[k] == c,
        trim_start_char(s, c).len() > 0 ==> trim_start_char(s, c)[0] != c,
    decreases s.len(),
{
    if s.len() > 0 && s[0] == c {
        lemma_trim_start_shape(s.drop_first(), c);
        let t = trim_start_char(s, c);
        let d = s.drop_first();
        assert(d.subrange(d.len() - t.len(), d.len() as int) =~= s.subrange(
            s.len() - t.len(),
            s.len() as int,
        ));
        assert forall|k: int| 0 <= k < s.len() - t.len() implies s[k] == c by {
            if k > 0 {
                assert(d[k - 1] == s[k]);
            }
        }
    } else {
        assert(s.subrange(0, s.len() as int) =~= s);
    }
}

/// Appends one character to a `String`.
/// Trusted: `String::push`, of which std documents that it appends the given `char`
/// to the end of the string.
#[verifier::external_body]
pub fn push_char(s: &mut String, c: char)
    ensures
        final(s)@ == old(s)@.push(c),
{
    s.push(c);
}

/// The characters of `s`, in order.
pub fn chars_of(s: &str) -> (r: Vec<char>)
    ensures
        r@ == s@,
{
    let n = s.unicode_len();
    let mut r: Vec<char> = Vec::new();
    let mut i: usize = 0;
    while i < n
        invariant
            n == s@.len(),
            i <= n,
            r@ == s@.subrange(0, i as int),
        decreases n - i,
    {
        r.push(s.get_char(i));
        i = i + 1;
    }
    assert(r@ == s@);
    r
}

/// Appends the characters `cs[from..to]` to `out`.
pub fn push_chars(out: &mut String, cs: &[char], from: usize, to: usize)
    requires
        from <= to <= cs@.len(),
    ensures
        final(out)@ == old(out)@ + cs@.subrange(from as int, to as int),
{
    let mut i: usize = from;
    while i < to
        invariant
            from <= i <= to <= cs@.len(),
            out@ == old(out)@ + cs@.subrange(from as int, i as int),
        decreases to - i,
    {
        push_char(out, cs[i]);
        i = i + 1;
        assert(out@ =~= old(out)@ + cs@.subrange(from as int, i as int));
    }
}

/// A new `String` holding exactly the characters of `cs`.
pub fn string_of(cs: &[char]) -> (r: String)
    ensures
        r@ == cs@,
{
    let mut r = String::new();
    push_chars(&mut r, cs, 0, cs.len());
    assert(cs@.subrange(0, cs@.len() as int) =~= cs@);
    r
}

/// Appends the characters of `s` to `out`.
pub fn append_str(out: &mut String, s: &str)
    ensures
        final(out)@ == old(out)@ + s@,
{
    let cs = chars_of(s);
    push_chars(out, cs.as_slice(), 0, cs.len());
    assert(cs@.subrange(0, cs@.len() as int) =~= s@);
}

/// A new `String` holding the characters of `s`.
pub fn copy_str(s: &str) -> (r: String)
    ensures
        r@ == s@,
{
    let cs = chars_of(s);
    string_of(cs.as_slice())
}

proof fn lemma_trim_end_prefix(s: Seq<char>, c: char, i: int)
    requires
        0 <= i <= s.len(),
        forall|k: int| i <= k < s.len() ==> s[k] == c,
    ensures
        trim_end_char(s, c) == trim_end_char(s.subrange(0, i), c),
    decreases s.len() - i,
{
    if i < s.len() {
        assert(s.drop_last() =~= s.subrange(0, s.len() - 1));
        lemma_trim_end_prefix(s.drop_last(), c, i);
        assert(s.drop_last().subrange(0, i) =~= s.subrange(0, i));
    } else {
        assert(s.subrange(0, i) =~= s);
    }
}

/// The number of characters left of `cs` after its trailing `c`s are removed.
pub fn trimmed_end_len(cs: &[char], c: char) -> (n: usize)
    ensures
        n <= cs@.len(),
        trim_end_char(cs@, c) == cs@.subrange(0, n as int),
{
    let mut n: usize = cs.len();
    while n > 0 && cs[n - 1] == c
        invariant
            n <= cs@.len(),
            forall|k: int| n <= k < cs@.len() ==> cs@[k] == c,
        decreases n,
    {
        n = n - 1;
    }
    proof {
        lemma_trim_end_prefix(cs@, c, n as int);
        let t = cs@.subrange(0, n as int);
        assert(!(t.len() > 0 && t.last() == c));
    }
    n
}

proof fn lemma_trim_start_suffix(s: Seq<char>, c: char, i: int)
    requires
        0 <= i <= s.len(),
        forall|k: int| 0 <= k < i ==> s[k] == c,
    ensures
        trim_start_char(s, c) == trim_start_char(s.subrange(i, s.len() as int), c),
    decreases i,
{
    if i > 0 {
        lemma_trim_start_suffix(s.drop_first(), c, i - 1);
        assert(s.drop_first().subrange(i - 1, s.len() - 1) =~= s.subrange(i, s.len() as int));
    } else {
        assert(s.subrange(0, s.len() as int) =~= s);
    }
}

/// The index of the first character of `cs` after its leading `c`s.
pub fn trimmed_start_index(cs: &[char], c: char) -> (i: usize)
    ensures
        i <= cs@.len(),
        trim_start_char(cs@, c) == cs@.subrange(i as int, cs@.len() as int),
{
    let mut i: usize = 0;
    while i < cs.len() && cs[i] == c
        invariant
            i <= cs@.len(),
            forall|k: int| 0 <= k < i ==> cs@[k] == c,
        decreases cs@.len() - i,
    {
        i = i + 1;
    }
    proof {
        lemma_trim_start_suffix(cs@, c, i as int);
        let t = cs@.subrange(i as int, cs@.len() as int);
        assert(!(t.len() > 0 && t[0] == c));
    }
    i
}

/// `s` without its trailing `c`s, as a new `String`.
pub fn trim_end_owned(s: &str, c: char) -> (r: String)
    ensures
        r@ == trim_end_char(s@, c),
{
    let cs = chars_of(s);
    let n = trimmed_end_len(cs.as_slice(), c);
    let mut r = String::new();
    push_chars(&mut r, cs.as_slice(), 0, n);
    r
}

/// `s` without its leading `c`s, as a new `String`.
pub fn trim_start_owned(s: &str, c: char) -> (r: String)
    ensures
        r@ == trim_start_char(s@, c),
{
    let cs = chars_of(s);
    let i = trimmed_start_index(cs.as_slice(), c);
    let mut r = String::new();
    push_chars(&mut r, cs.as_slice(), i, cs.len());
    r
}

} // verus!
