//! Text as a sequence of characters: searching, trimming, splitting, joining.
//!
//! The contracts of the library speak of a text as a `Seq<char>`. This module
//! holds the operations on texts that the other modules share, each stated
//! over such sequences.
use vstd::prelude::*;

verus! {

broadcast use vstd::string::group_string_axioms;

/// [`String::push`] adds the character at the end of the text.
pub assume_specification[ String::push ](s: &mut String, c: char)
    ensures
        final(s)@ == old(s)@.push(c),
;

/// The characters of `s`, in order.
pub fn to_chars(s: &str) -> (r: Vec<char>)
    ensures
        r@ == s@,
{
    let mut r: Vec<char> = Vec::new();
    for c in it: s.chars()
        invariant
            it.seq() == s@,
            r@ == s@.take(it.index() as int),
    {
        proof {
            assert(s@.take(it.index() as int).push(c) =~= s@.take(it.index() as int + 1));
        }
        r.push(c);
    }
    proof {
        assert(s@.take(s@.len() as int) =~= s@);
    }
    r
}

/// The text of the characters `v[lo..hi]`.
pub fn from_range(v: &Vec<char>, lo: usize, hi: usize) -> (r: String)
    requires
        lo <= hi <= v@.len(),
    ensures
        r@ == v@.subrange(lo as int, hi as int),
{
    let mut r = String::new();
    let mut i: usize = lo;
    proof {
        assert(r@ =~= v@.subrange(lo as int, lo as int));
    }
    while i < hi
        invariant
            lo <= i <= hi <= v@.len(),
            r@ == v@.subrange(lo as int, i as int),
        decreases hi - i,
    {
        proof {
            assert(v@.subrange(lo as int, i as int).push(v@[i as int]) =~= v@.subrange(
                lo as int,
                i as int + 1,
            ));
        }
        r.push(v[i]);
        i = i + 1;
    }
    r
}

/// The text of all characters of `v`.
pub fn from_chars(v: &Vec<char>) -> (r: String)
    ensures
        r@ == v@,
{
    proof {
        assert(v@.subrange(0, v@.len() as int) =~= v@);
    }
    from_range(v, 0, v.len())
}

/// The two texts one after the other.
pub fn concat(a: &str, b: &str) -> (r: String)
    ensures
        r@ == a@ + b@,
{
    let mut r = a.to_owned();
    push_text(&mut r, b);
    r
}

/// The three texts one after the other.
pub fn concat3(a: &str, b: &str, c: &str) -> (r: String)
    ensures
        r@ == a@ + b@ + c@,
{
    let mut r = concat(a, b);
    push_text(&mut r, c);
    r
}

/// Puts the text `b` at the end of `a`.
pub fn push_text(a: &mut String, b: &str)
    ensures
        final(a)@ == old(a)@ + b@,
{
    let mut i: usize = 0;
    let v = to_chars(b);
    proof {
        assert(a@ =~= old(a)@ + b@.take(0));
    }
    while i < v.len()
        invariant
            i <= v@.len(),
            v@ == b@,
            a@ == old(a)@ + b@.take(i as int),
        decreases v@.len() - i,
    {
        a.push(v[i]);
        i = i + 1;
        proof {
            assert(a@ =~= old(a)@ + b@.take(i as int));
        }
    }
    proof {
        assert(b@.take(b@.len() as int) =~= b@);
    }
}

/// Whether the two texts have the same characters.
pub fn same(a: &str, b: &str) -> (r: bool)
    ensures
        r == (a@ == b@),
{
    let x = to_chars(a);
    let y = to_chars(b);
    same_chars(&x, &y)
}

/// Whether the two character sequences are equal.
pub fn same_chars(x: &Vec<char>, y: &Vec<char>) -> (r: bool)
    ensures
        r == (x@ == y@),
{
    if x.len() != y.len() {
        return false;
    }
    let mut i: usize = 0;
    while i < x.len()
        invariant
            i <= x@.len(),
            x@.len() == y@.len(),
            forall|j: int| 0 <= j < i ==> x@[j] == y@[j],
        decreases x@.len() - i,
    {
        if x[i] != y[i] {
            return false;
        }
        i = i + 1;
    }
    proof {
        assert(x@ =~= y@);
    }
    true
}

// ---------------------------------------------------------------------------
// Searching
// ---------------------------------------------------------------------------

/// Whether `p` stands in `s` at position `i`.
pub open spec fn occurs_at(s: Seq<char>, p: Seq<char>, i: int) -> bool {
    0 <= i && i + p.len() <= s.len() && s.subrange(i, i + p.len()) == p
}

/// Whether `p` stands anywhere in `s`.
pub open spec fn has_text(s: Seq<char>, p: Seq<char>) -> bool {
    exists|i: int| occurs_at(s, p, i)
}

/// The least position from `i` on at which `p` stands in `s`.
pub open spec fn find_from(s: Seq<char>, p: Seq<char>, i: int) -> Option<int>
    decreases s.len() + 1 - i,
{
    if i < 0 || i + p.len() > s.len() {
        None
    } else if occurs_at(s, p, i) {
        Some(i)
    } else {
        find_from(s, p, i + 1)
    }
}

/// `find_from` is the least occurrence, if there is one.
pub proof fn lemma_find_from(s: Seq<char>, p: Seq<char>, i: int)
    requires
        0 <= i,
    ensures
        match find_from(s, p, i) {
            Some(j) => i <= j && occurs_at(s, p, j) && forall|k: int|
                i <= k < j ==> !occurs_at(s, p, k),
            None => forall|k: int| i <= k ==> !occurs_at(s, p, k),
        },
    decreases s.len() + 1 - i,
{
    if i + p.len() <= s.len() && !occurs_at(s, p, i) {
        lemma_find_from(s, p, i + 1);
    }
}

/// Whether `p` stands in `s` at position `i`.
pub fn stands_at(s: &Vec<char>, p: &Vec<char>, i: usize) -> (r: bool)
    ensures
        r == occurs_at(s@, p@, i as int),
{
    if i > s.len() || p.len() > s.len() - i {
        return false;
    }
    let n: usize = s.len();
    let mut k: usize = 0;
    while k < p.len()
        invariant
            n == s@.len(),
            i + p@.len() <= n,
            k <= p@.len(),
            forall|j: int| 0 <= j < k ==> s@[i + j] == p@[j],
        decreases p@.len() - k,
    {
        if s[i + k] != p[k] {
            proof {
                assert(s@.subrange(i as int, i + p@.len())[k as int] == s@[i + k]);
            }
            return false;
        }
        k = k + 1;
    }
    proof {
        assert(s@.subrange(i as int, i + p@.len()) =~= p@);
    }
    true
}

/// The least position from `from` on at which `p` stands in `s`.
pub fn find_pos(s: &Vec<char>, p: &Vec<char>, from: usize) -> (r: Option<usize>)
    ensures
        match r {
            Some(i) => find_from(s@, p@, from as int) == Some(i as int),
            None => find_from(s@, p@, from as int) is None,
        },
{
    let mut i: usize = from;
    let n: usize = s.len();
    if p.len() > n || from > n - p.len() {
        return None;
    }
    let last: usize = n - p.len();
    while i < last
        invariant
            n == s@.len(),
            last + p@.len() == n,
            from <= i <= last,
            find_from(s@, p@, from as int) == find_from(s@, p@, i as int),
        decreases last - i,
    {
        if stands_at(s, p, i) {
            return Some(i);
        }
        i = i + 1;
    }
    if stands_at(s, p, last) {
        Some(last)
    } else {
        proof {
            assert(find_from(s@, p@, last as int + 1) is None);
        }
        None
    }
}

/// Whether `p` stands anywhere in `s`.
pub fn contains_text(s: &str, p: &str) -> (r: bool)
    ensures
        r == has_text(s@, p@),
{
    let cs = to_chars(s);
    let cp = to_chars(p);
    proof {
        lemma_find_from(s@, p@, 0);
    }
    find_pos(&cs, &cp, 0).is_some()
}

/// Whether `s` begins with `p`.
pub fn starts_with(s: &str, p: &str) -> (r: bool)
    ensures
        r == p@.is_prefix_of(s@),
{
    let cs = to_chars(s);
    let cp = to_chars(p);
    let r = stands_at(&cs, &cp, 0);
    r
}

/// Whether `s` ends with `p`.
pub fn ends_with(s: &str, p: &str) -> (r: bool)
    ensures
        r == p@.is_suffix_of(s@),
{
    let cs = to_chars(s);
    let cp = to_chars(p);
    if cp.len() > cs.len() {
        return false;
    }
    let r = stands_at(&cs, &cp, cs.len() - cp.len());
    r
}

/// What follows `p` in `s`, where `s` begins with `p`.
pub open spec fn after_prefix(s: Seq<char>, p: Seq<char>) -> Option<Seq<char>> {
    if p.is_prefix_of(s) {
        Some(s.skip(p.len() as int))
    } else {
        None
    }
}

/// What precedes `p` in `s`, where `s` ends with `p`.
pub open spec fn before_suffix(s: Seq<char>, p: Seq<char>) -> Option<Seq<char>> {
    if p.is_suffix_of(s) {
        Some(s.take(s.len() - p.len()))
    } else {
        None
    }
}

/// What follows `p` in `s`, or `None` where `s` does not begin with `p`.
pub fn strip_prefix(s: &str, p: &str) -> (r: Option<String>)
    ensures
        text_view(r) == after_prefix(s@, p@),
{
    let cs = to_chars(s);
    let cp = to_chars(p);
    if stands_at(&cs, &cp, 0) {
        proof {
            assert(s@.skip(p@.len() as int) =~= s@.subrange(p@.len() as int, s@.len() as int));
        }
        Some(from_range(&cs, cp.len(), cs.len()))
    } else {
        None
    }
}

/// What precedes `p` in `s`, or `None` where `s` does not end with `p`.
pub fn strip_suffix(s: &str, p: &str) -> (r: Option<String>)
    ensures
        text_view(r) == before_suffix(s@, p@),
{
    if !ends_with(s, p) {
        return None;
    }
    let cs = to_chars(s);
    let cp = to_chars(p);
    proof {
        assert(s@.take(s@.len() - p@.len()) =~= s@.subrange(0, s@.len() - p@.len()));
    }
    Some(from_range(&cs, 0, cs.len() - cp.len()))
}

/// An optional text by its characters.
pub open spec fn text_view(s: Option<String>) -> Option<Seq<char>> {
    match s {
        Some(t) => Some(t@),
        None => None,
    }
}

/// An optional borrowed text by its characters.
pub open spec fn str_view(s: Option<&str>) -> Option<Seq<char>> {
    match s {
        Some(t) => Some(t@),
        None => None,
    }
}

/// A list of texts by their characters.
pub open spec fn text_views(v: Seq<String>) -> Seq<Seq<char>> {
    Seq::new(v.len(), |i: int| v[i]@)
}

// ---------------------------------------------------------------------------
// Trimming
// ---------------------------------------------------------------------------

/// The Unicode property `White_Space`.
pub open spec fn is_space(c: char) -> bool {
    let n = c as u32;
    ||| 9 <= n <= 13
    ||| n == 0x20
    ||| n == 0x85
    ||| n == 0xa0
    ||| n == 0x1680
    ||| 0x2000 <= n <= 0x200a
    ||| n == 0x2028
    ||| n == 0x2029
    ||| n == 0x202f
    ||| n == 0x205f
    ||| n == 0x3000
}

/// Whether `c` has the Unicode property `White_Space`.
pub fn is_whitespace(c: char) -> (r: bool)
    ensures
        r == is_space(c),
{
    let n: u32 = c as u32;
    (9 <= n && n <= 13) || n == 0x20 || n == 0x85 || n == 0xa0 || n == 0x1680 || (0x2000 <= n && n
        <= 0x200a) || n == 0x2028 || n == 0x2029 || n == 0x202f || n == 0x205f || n == 0x3000
}

/// `s` without the white space at its start.
pub open spec fn trimmed_start(s: Seq<char>) -> Seq<char>
    decreases s.len(),
{
    if s.len() > 0 && is_space(s[0]) {
        trimmed_start(s.skip(1))
    } else {
        s
    }
}

/// `s` without the white space at its end.
pub open spec fn trimmed_end(s: Seq<char>) -> Seq<char>
    decreases s.len(),
{
    if s.len() > 0 && is_space(s.last()) {
        trimmed_end(s.drop_last())
    } else {
        s
    }
}

/// `s` without the white space at both its ends.
pub open spec fn trimmed(s: Seq<char>) -> Seq<char> {
    trimmed_end(trimmed_start(s))
}

/// Trimming takes white space from both ends and nothing else: the text is
/// white space, the trimmed text, and white space again. The trimmed text
/// neither begins nor ends with white space.
pub proof fn law_trimming(s: Seq<char>)
    ensures
        trimmed(s).len() > 0 ==> !is_space(trimmed(s)[0]) && !is_space(trimmed(s).last()),
        exists|i: int|
            0 <= i && i + trimmed(s).len() <= s.len() && #[trigger] s.subrange(
                i,
                i + trimmed(s).len(),
            ) == trimmed(s) && (forall|j: int|
                (0 <= j < i || i + trimmed(s).len() <= j < s.len()) ==> is_space(#[trigger] s[j])),
{
    let a = trimmed_start(s);
    let n = lemma_trimmed_start(s);
    lemma_trimmed_end(a);
    let t = trimmed(s);
    assert(s.subrange(n, n + t.len()) =~= t) by {
        assert forall|j: int| 0 <= j < t.len() implies s[n + j] == t[j] by {
            assert(a[j] == s[n + j]);
            assert(t[j] == a[j]);
        }
    }
    assert forall|j: int|
        (0 <= j < n || n + t.len() <= j < s.len()) implies is_space(#[trigger] s[j]) by {
        if j >= n + t.len() {
            assert(a[j - n] == s[j]);
        }
    }
    if t.len() > 0 {
        assert(t[0] == a[0]);
    }
}

/// What is taken from the start.
proof fn lemma_trimmed_start(s: Seq<char>) -> (n: int)
    ensures
        0 <= n <= s.len(),
        trimmed_start(s) == s.skip(n),
        forall|j: int| 0 <= j < n ==> is_space(#[trigger] s[j]),
        trimmed_start(s).len() > 0 ==> !is_space(trimmed_start(s)[0]),
    decreases s.len(),
{
    if s.len() > 0 && is_space(s[0]) {
        let rest = s.skip(1);
        let k = lemma_trimmed_start(rest);
        assert(rest.skip(k) =~= s.skip(k + 1));
        assert forall|j: int| 0 <= j < k + 1 implies is_space(#[trigger] s[j]) by {
            if j > 0 {
                assert(rest[j - 1] == s[j]);
            }
        }
        k + 1
    } else {
        assert(s.skip(0) =~= s);
        0
    }
}

/// What is taken from the end.
proof fn lemma_trimmed_end(s: Seq<char>)
    ensures
        trimmed_end(s).len() <= s.len(),
        trimmed_end(s) == s.take(trimmed_end(s).len() as int),
        forall|j: int| trimmed_end(s).len() <= j < s.len() ==> is_space(#[trigger] s[j]),
        trimmed_end(s).len() > 0 ==> !is_space(trimmed_end(s).last()),
    decreases s.len(),
{
    if s.len() > 0 && is_space(s.last()) {
        let init = s.drop_last();
        lemma_trimmed_end(init);
        let n = trimmed_end(init).len() as int;
        assert(init.take(n) =~= s.take(n));
        assert forall|j: int| n <= j < s.len() implies is_space(#[trigger] s[j]) by {
            if j < init.len() {
                assert(init[j] == s[j]);
            }
        }
    } else {
        assert(s.take(s.len() as int) =~= s);
    }
}

/// `s` without the white space at its start.
pub fn trim_start(s: &str) -> (r: String)
    ensures
        r@ == trimmed_start(s@),
{
    let cs = to_chars(s);
    let mut i: usize = 0;
    proof {
        assert(s@.skip(0) =~= s@);
    }
    while i < cs.len() && is_whitespace(cs[i])
        invariant
            cs@ == s@,
            i <= s@.len(),
            trimmed_start(s@) == trimmed_start(s@.skip(i as int)),
        decreases s@.len() - i,
    {
        proof {
            assert(s@.skip(i as int).skip(1) =~= s@.skip(i as int + 1));
        }
        i = i + 1;
    }
    proof {
        assert(s@.skip(i as int) =~= s@.subrange(i as int, s@.len() as int));
    }
    from_range(&cs, i, cs.len())
}

/// `s` without the white space at its end.
pub fn trim_end(s: &str) -> (r: String)
    ensures
        r@ == trimmed_end(s@),
{
    let cs = to_chars(s);
    let mut n: usize = cs.len();
    proof {
        assert(s@.take(n as int) =~= s@);
    }
    while n > 0 && is_whitespace(cs[n - 1])
        invariant
            cs@ == s@,
            n <= s@.len(),
            trimmed_end(s@) == trimmed_end(s@.take(n as int)),
        decreases n,
    {
        proof {
            assert(s@.take(n as int).drop_last() =~= s@.take(n as int - 1));
        }
        n = n - 1;
    }
    proof {
        assert(s@.take(n as int) =~= s@.subrange(0, n as int));
    }
    from_range(&cs, 0, n)
}

/// `s` without the white space at both its ends.
pub fn trim(s: &str) -> (r: String)
    ensures
        r@ == trimmed(s@),
{
    let t = trim_start(s);
    trim_end(&t)
}

// ---------------------------------------------------------------------------
// Splitting and joining
// ---------------------------------------------------------------------------

/// The pieces of `s` between the occurrences of `c`. Never empty.
pub open spec fn split_on(s: Seq<char>, c: char) -> Seq<Seq<char>>
    decreases s.len(),
{
    if s.len() == 0 {
        seq![Seq::empty()]
    } else {
        let before = split_on(s.drop_last(), c);
        if s.last() == c {
            before.push(Seq::empty())
        } else {
            before.drop_last().push(before.last().push(s.last()))
        }
    }
}

/// The pieces one after the other, with `sep` between each two.
pub open spec fn joined(parts: Seq<Seq<char>>, sep: Seq<char>) -> Seq<char>
    decreases parts.len(),
{
    if parts.len() == 0 {
        Seq::empty()
    } else if parts.len() == 1 {
        parts[0]
    } else {
        joined(parts.drop_last(), sep) + sep + parts.last()
    }
}

/// The pieces of `s` between the occurrences of `c`.
pub fn split(s: &str, c: char) -> (r: Vec<String>)
    ensures
        text_views(r@) == split_on(s@, c),
{
    let cs = to_chars(s);
    let mut done: Vec<String> = Vec::new();
    let mut cur = String::new();
    let mut i: usize = 0;
    proof {
        assert(s@.take(0) =~= Seq::<char>::empty());
        assert(text_views(done@).push(cur@) =~= split_on(s@.take(0), c));
    }
    while i < cs.len()
        invariant
            cs@ == s@,
            i <= s@.len(),
            text_views(done@).push(cur@) == split_on(s@.take(i as int), c),
        decreases s@.len() - i,
    {
        let ghost before = text_views(done@).push(cur@);
        let ghost was = cur@;
        let ghost olds = done@;
        proof {
            assert(s@.take(i as int + 1).drop_last() =~= s@.take(i as int));
            assert(before.drop_last() =~= text_views(done@));
        }
        if cs[i] == c {
            done.push(cur);
            cur = String::new();
            proof {
                assert(text_views(done@) =~= text_views(olds).push(was));
                assert(cur@ =~= Seq::<char>::empty());
            }
        } else {
            cur.push(cs[i]);
        }
        i = i + 1;
        proof {
            assert(text_views(done@).push(cur@) =~= split_on(s@.take(i as int), c));
        }
    }
    let ghost olds = done@;
    let ghost was = cur@;
    done.push(cur);
    proof {
        assert(s@.take(s@.len() as int) =~= s@);
        assert(text_views(done@) =~= text_views(olds).push(was));
    }
    done
}

/// The pieces one after the other, with `sep` between each two.
pub fn join(parts: &Vec<String>, sep: &str) -> (r: String)
    ensures
        r@ == joined(text_views(parts@), sep@),
{
    let mut r = String::new();
    let mut i: usize = 0;
    let ghost all = text_views(parts@);
    proof {
        assert(all.take(0) =~= Seq::<Seq<char>>::empty());
        assert(r@ =~= joined(all.take(0), sep@));
    }
    while i < parts.len()
        invariant
            all == text_views(parts@),
            i <= parts@.len(),
            r@ == joined(all.take(i as int), sep@),
        decreases parts@.len() - i,
    {
        if i > 0 {
            push_text(&mut r, sep);
        }
        push_text(&mut r, &parts[i]);
        i = i + 1;
        proof {
            assert(all.take(i as int).drop_last() =~= all.take(i as int - 1));
            assert(all.take(i as int).last() == parts@[i as int - 1]@);
            assert(r@ =~= joined(all.take(i as int), sep@));
        }
    }
    proof {
        assert(all.take(all.len() as int) =~= all);
    }
    r
}

/// A text is its pieces between the occurrences of `c`, joined by `c` again.
pub proof fn law_join_undoes_split(s: Seq<char>, c: char)
    ensures
        split_on(s, c).len() > 0,
        joined(split_on(s, c), seq![c]) == s,
        forall|i: int| #![auto]
            0 <= i < split_on(s, c).len() ==> !split_on(s, c)[i].contains(c),
    decreases s.len(),
{
    let sep = seq![c];
    if s.len() > 0 {
        law_join_undoes_split(s.drop_last(), c);
        let before = split_on(s.drop_last(), c);
        let now = split_on(s, c);
        if s.last() == c {
            assert(now.drop_last() =~= before);
            assert(now.last() =~= Seq::<char>::empty());
            assert(joined(now, sep) =~= joined(before, sep) + sep + now.last());
            assert(joined(now, sep) =~= s);
            assert forall|i: int| #![auto] 0 <= i < now.len() implies !now[i].contains(c) by {
                if i < before.len() {
                    assert(now[i] == before[i]);
                }
            }
        } else {
            assert(now.drop_last() =~= before.drop_last());
            assert(now.last() == before.last().push(s.last()));
            if before.len() > 1 {
                assert(joined(before, sep) == joined(before.drop_last(), sep) + sep
                    + before.last());
            }
            assert(joined(now, sep) =~= joined(before, sep).push(s.last()));
            assert(s.drop_last().push(s.last()) =~= s);
            assert forall|i: int| #![auto] 0 <= i < now.len() implies !now[i].contains(c) by {
                if i < before.len() - 1 {
                    assert(now[i] == before[i]);
                } else {
                    assert(!before.last().contains(c));
                    assert forall|j: int| 0 <= j < now[i].len() implies now[i][j] != c by {
                        if j < before.last().len() {
                            assert(before.last()[j] == now[i][j]);
                            assert(before.last().contains(before.last()[j]));
                        }
                    }
                }
            }
        }
    } else {
        assert(split_on(s, c)[0] =~= Seq::<char>::empty());
        assert(s =~= Seq::<char>::empty());
    }
}

/// `s` with every `c` replaced by `d`.
pub open spec fn replaced(s: Seq<char>, c: char, d: char) -> Seq<char> {
    Seq::new(s.len(), |i: int| if s[i] == c { d } else { s[i] })
}

/// `s` with every `c` replaced by `d`.
pub fn replace_char(s: &str, c: char, d: char) -> (r: String)
    ensures
        r@ == replaced(s@, c, d),
{
    let cs = to_chars(s);
    let mut r = String::new();
    let mut i: usize = 0;
    while i < cs.len()
        invariant
            cs@ == s@,
            i <= s@.len(),
            r@.len() == i,
            forall|j: int| 0 <= j < i ==> r@[j] == replaced(s@, c, d)[j],
        decreases s@.len() - i,
    {
        if cs[i] == c {
            r.push(d);
        } else {
            r.push(cs[i]);
        }
        i = i + 1;
    }
    proof {
        assert(r@ =~= replaced(s@, c, d));
    }
    r
}

/// An optional text without the empty one.
pub open spec fn nonempty_view(s: Option<Seq<char>>) -> Option<Seq<char>> {
    match s {
        Some(t) => if t.len() == 0 {
            None
        } else {
            Some(t)
        },
        None => None,
    }
}

/// Maps an empty text to `None` and keeps every other value.
pub fn nonempty(value: Option<String>) -> (r: Option<String>)
    ensures
        text_view(r) == nonempty_view(text_view(value)),
{
    match value {
        Some(s) => {
            let n = to_chars(&s);
            if n.len() == 0 {
                None
            } else {
                Some(s)
            }
        },
        None => None,
    }
}

// ---------------------------------------------------------------------------
// Numbers as text
// ---------------------------------------------------------------------------

/// The decimal digit for `d` below ten.
pub open spec fn digit_char(d: int) -> char {
    (48 + d) as char
}

/// The decimal digits of `n`, without leading zeros.
pub open spec fn digits(n: nat) -> Seq<char>
    decreases n,
{
    if n < 10 {
        seq![digit_char(n as int)]
    } else {
        digits(n / 10).push(digit_char((n % 10) as int))
    }
}

/// `n` times the digit zero.
pub open spec fn zeros(n: int) -> Seq<char> {
    Seq::new(
        if n > 0 {
            n as nat
        } else {
            0
        },
        |i: int| '0',
    )
}

/// `i` in decimal, with zeros behind the sign up to `width` characters.
pub open spec fn padded(i: int, width: int) -> Seq<char> {
    if i < 0 {
        seq!['-'] + zeros(width - 1 - digits((-i) as nat).len()) + digits((-i) as nat)
    } else {
        zeros(width - digits(i as nat).len()) + digits(i as nat)
    }
}

/// The decimal digits of `n`, without leading zeros.
pub fn digits_of(n: u64) -> (r: Vec<char>)
    ensures
        r@ == digits(n as nat),
        r@.len() <= 20,
{
    let mut rev: Vec<char> = Vec::new();
    let mut m: u64 = n;
    let ghost mut tail: Seq<char> = Seq::empty();
    proof {
        assert(digits(n as nat) =~= digits(m as nat) + tail);
    }
    let ghost mut left: nat = 20;
    proof {
        reveal_with_fuel(vstd::arithmetic::power::pow, 21);
        assert(vstd::arithmetic::power::pow(10, 20) == 100_000_000_000_000_000_000);
    }
    while m >= 10
        invariant
            digits(n as nat) == digits(m as nat) + tail,
            rev@ == tail.reverse(),
            left + tail.len() == 20,
            left >= 1,
            m < vstd::arithmetic::power::pow(10, left),
        decreases m,
    {
        let d: u8 = (m % 10) as u8;
        let c: char = (48u8 + d) as char;
        let ghost was = tail;
        proof {
            reveal(vstd::arithmetic::power::pow);
            tail = seq![digit_char((m % 10) as int)] + was;
            assert(digits(m as nat) == digits((m / 10) as nat).push(digit_char((m % 10) as int)));
            assert(digits(m as nat) + was =~= digits((m / 10) as nat) + tail);
            assert(was.reverse().push(c) =~= tail.reverse());
            assert(left >= 2) by {
                if left == 1 {
                    assert(vstd::arithmetic::power::pow(10, 1) == 10 * vstd::arithmetic::power::pow(
                        10,
                        0,
                    ));
                }
            }
            assert(m < 10 * vstd::arithmetic::power::pow(10, (left - 1) as nat));
            left = (left - 1) as nat;
        }
        rev.push(c);
        m = m / 10;
    }
    let c: char = (48u8 + m as u8) as char;
    let mut r: Vec<char> = Vec::new();
    r.push(c);
    let mut i: usize = rev.len();
    proof {
        assert(r@ =~= digits(m as nat));
        assert(tail.take(0) =~= Seq::<char>::empty());
        assert(r@ =~= digits(m as nat) + tail.take(0));
    }
    while i > 0
        invariant
            i <= rev@.len(),
            rev@ == tail.reverse(),
            r@ == digits(m as nat) + tail.take(rev@.len() - i),
        decreases i,
    {
        i = i - 1;
        let c: char = rev[i];
        proof {
            assert(c == tail[rev@.len() - 1 - i]);
            assert((digits(m as nat) + tail.take(rev@.len() - i - 1)).push(c) =~= digits(m as nat)
                + tail.take(rev@.len() - i));
        }
        r.push(c);
    }
    proof {
        assert(tail.take(tail.len() as int) =~= tail);
    }
    r
}

/// Puts `i` in decimal at the end of `out`, with zeros behind the sign up to
/// `width` characters.
pub fn push_padded(out: &mut String, i: i64, width: usize)
    requires
        i > i64::MIN,
        width < 1000,
    ensures
        final(out)@ == old(out)@ + padded(i as int, width as int),
{
    let neg: bool = i < 0;
    let m: u64 = if neg {
        (0 - i) as u64
    } else {
        i as u64
    };
    let ds = digits_of(m);
    let ghost start = out@;
    let mut used: usize = ds.len();
    if neg {
        out.push('-');
        used = used + 1;
    }
    let ghost signed = out@;
    let n: usize = if used < width {
        width - used
    } else {
        0
    };
    let mut k: usize = 0;
    proof {
        assert(out@ =~= signed + zeros(0));
    }
    while k < n
        invariant
            k <= n,
            out@ == signed + zeros(k as int),
        decreases n - k,
    {
        out.push('0');
        k = k + 1;
        proof {
            assert(out@ =~= signed + zeros(k as int));
        }
    }
    let body = from_chars(&ds);
    push_text(out, &body);
    proof {
        if neg {
            assert(signed =~= start + seq!['-']);
            assert(zeros(n as int) =~= zeros(width - 1 - digits(m as nat).len()));
            assert(out@ =~= start + padded(i as int, width as int));
        } else {
            assert(zeros(n as int) =~= zeros(width - digits(m as nat).len()));
            assert(out@ =~= start + padded(i as int, width as int));
        }
    }
}

/// Two digits.
pub proof fn lemma_padded_2(n: int)
    requires
        0 <= n < 100,
    ensures
        padded(n, 2) == seq![digit_char(n / 10), digit_char(n % 10)],
{
    reveal_with_fuel(digits, 3);
    assert(padded(n, 2) =~= seq![digit_char(n / 10), digit_char(n % 10)]);
}

/// Three digits.
pub proof fn lemma_padded_3(n: int)
    requires
        0 <= n < 1000,
    ensures
        padded(n, 3) == seq![digit_char(n / 100), digit_char(n / 10 % 10), digit_char(n % 10)],
{
    reveal_with_fuel(digits, 4);
    assert(padded(n, 3) =~= seq![
        digit_char(n / 100),
        digit_char(n / 10 % 10),
        digit_char(n % 10),
    ]);
}

/// Four digits.
pub proof fn lemma_padded_4(n: int)
    requires
        0 <= n < 10000,
    ensures
        padded(n, 4) == seq![
            digit_char(n / 1000),
            digit_char(n / 100 % 10),
            digit_char(n / 10 % 10),
            digit_char(n % 10),
        ],
{
    reveal_with_fuel(digits, 5);
    assert(padded(n, 4) =~= seq![
        digit_char(n / 1000),
        digit_char(n / 100 % 10),
        digit_char(n / 10 % 10),
        digit_char(n % 10),
    ]);
}

/// The characters that count as space: a tab and the line and page ends, the
/// blank, and the blanks of other scripts and widths.
pub proof fn law_spaces(c: char)
    ensures
        is_space(c) == (seq!['\t', '\n', '\u{b}', '\u{c}', '\r', ' ', '\u{85}', '\u{a0}'].contains(
            c,
        ) || seq!['\u{1680}', '\u{2028}', '\u{2029}', '\u{202f}', '\u{205f}', '\u{3000}'].contains(
            c,
        ) || seq!['\u{2000}', '\u{2001}', '\u{2002}', '\u{2003}', '\u{2004}', '\u{2005}'].contains(
            c,
        ) || seq!['\u{2006}', '\u{2007}', '\u{2008}', '\u{2009}', '\u{200a}'].contains(c)),
{
    let a = seq!['\t', '\n', '\u{b}', '\u{c}', '\r', ' ', '\u{85}', '\u{a0}'];
    let b = seq!['\u{1680}', '\u{2028}', '\u{2029}', '\u{202f}', '\u{205f}', '\u{3000}'];
    let d = seq!['\u{2000}', '\u{2001}', '\u{2002}', '\u{2003}', '\u{2004}', '\u{2005}'];
    let e = seq!['\u{2006}', '\u{2007}', '\u{2008}', '\u{2009}', '\u{200a}'];
    if is_space(c) {
        assert(c == a[0] || c == a[1] || c == a[2] || c == a[3] || c == a[4] || c == a[5] || c
            == a[6] || c == a[7] || c == b[0] || c == b[1] || c == b[2] || c == b[3] || c == b[4]
            || c == b[5] || c == d[0] || c == d[1] || c == d[2] || c == d[3] || c == d[4] || c
            == d[5] || c == e[0] || c == e[1] || c == e[2] || c == e[3] || c == e[4]);
    }
}

} // verus!
