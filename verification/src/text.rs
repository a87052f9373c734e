use vstd::prelude::*;

verus! {

/// Number of leading empty words: the position of the first non-empty word, or the number of words.
pub open spec fn leading_empty(words: Seq<Seq<char>>) -> nat
    decreases words.len(),
{
    if words.len() == 0 {
        0
    } else if words[0].len() == 0 {
        1 + leading_empty(words.drop_first())
    } else {
        0
    }
}

/// Returns the index of the first non-empty word, or the number of words when all are empty.
pub fn count_start_spaces(words: &Vec<&str>) -> (n: usize)
    ensures
        n <= words.len(),
        forall|i: int| 0 <= i < n ==> (#[trigger] words[i])@.len() == 0,
        n < words.len() ==> words[n as int]@.len() > 0,
{
    let mut i: usize = 0;
    while i < words.len()
        invariant
            i <= words.len(),
            forall|j: int| 0 <= j < i ==> (#[trigger] words[j])@.len() == 0,
        decreases words.len() - i,
    {
        if !words[i].is_empty() {
            return i;
        }
        i = i + 1;
    }
    words.len()
}

/// `n` copies of `s`, one after the other.
pub open spec fn repeat(s: Seq<char>, n: nat) -> Seq<char>
    decreases n,
{
    if n == 0 {
        Seq::empty()
    } else {
        repeat(s, (n - 1) as nat) + s
    }
}

/// The pieces of `parts` with `sep` between each two neighbours.
pub open spec fn join(parts: Seq<Seq<char>>, sep: Seq<char>) -> Seq<char>
    decreases parts.len(),
{
    if parts.len() == 0 {
        Seq::empty()
    } else if parts.len() == 1 {
        parts[0]
    } else {
        join(parts.drop_last(), sep) + sep + parts.last()
    }
}

/// The decimal digit character of `d < 10`.
pub open spec fn digit_char(d: nat) -> char {
    (d + 48) as char
}

/// The decimal notation of `n`, without leading zeros.
pub open spec fn decimal(n: nat) -> Seq<char>
    decreases n,
{
    if n < 10 {
        seq![digit_char(n)]
    } else {
        decimal(n / 10).push(digit_char(n % 10))
    }
}

/// The pieces between the occurrences of `sep` in `s`, as `str::split` with a character gives them.
pub open spec fn split(s: Seq<char>, sep: char) -> Seq<Seq<char>>
    decreases s.len(),
{
    if s.len() == 0 {
        seq![Seq::empty()]
    } else {
        let init = split(s.drop_last(), sep);
        if s.last() == sep {
            init.push(Seq::empty())
        } else {
            init.update(init.len() - 1, init.last().push(s.last()))
        }
    }
}

pub proof fn lemma_split_len(s: Seq<char>, sep: char)
    ensures
        split(s, sep).len() >= 1,
    decreases s.len(),
{
    if s.len() > 0 {
        lemma_split_len(s.drop_last(), sep);
    }
}

/// The number of space characters at the start of `s`.
pub open spec fn leading_spaces(s: Seq<char>) -> nat
    decreases s.len(),
{
    if s.len() > 0 && s[0] == ' ' {
        1 + leading_spaces(s.drop_first())
    } else {
        0
    }
}

/// A position before which all characters are spaces and at which none is, is the number of leading spaces.
pub proof fn lemma_leading_spaces(s: Seq<char>, k: nat)
    requires
        k <= s.len(),
        forall|i: int| 0 <= i < k ==> s[i] == ' ',
        k < s.len() ==> s[k as int] != ' ',
    ensures
        leading_spaces(s) == k,
    decreases k,
{
    if k > 0 {
        lemma_leading_spaces(s.drop_first(), (k - 1) as nat);
    }
}

/// `s` without the characters equal to `c`.
pub open spec fn remove_char(s: Seq<char>, c: char) -> Seq<char>
    decreases s.len(),
{
    if s.len() == 0 {
        Seq::empty()
    } else if s.last() == c {
        remove_char(s.drop_last(), c)
    } else {
        remove_char(s.drop_last(), c).push(s.last())
    }
}

/// Appends one character to a string by calling `String::push`, whose documentation says that it
/// appends the character to the end of the string; the contract states exactly that.
#[verifier::external_body]
pub(crate) fn push_char(s: &mut String, c: char)
    ensures
        final(s)@ == old(s)@.push(c),
{
    s.push(c);
}

/// Appends a string slice to a string.
pub fn push_str(s: &mut String, t: &str)
    ensures
        final(s)@ == old(s)@ + t@,
{
    s.append(t);
}

/// The characters of a string slice, in order.
pub fn chars_of(s: &str) -> (v: Vec<char>)
    ensures
        v@ == s@,
{
    let mut v: Vec<char> = Vec::new();
    for c in it: s.chars()
        invariant
            v@ == it.seq().take(it.index() as int),
    {
        v.push(c);
    }
    v
}

/// The string made of `v[from..to]`.
pub fn string_of(v: &Vec<char>, from: usize, to: usize) -> (s: String)
    requires
        from <= to <= v.len(),
    ensures
        s@ == v@.subrange(from as int, to as int),
{
    let mut s = String::new();
    let mut i = from;
    while i < to
        invariant
            from <= i <= to <= v.len(),
            s@ == v@.subrange(from as int, i as int),
        decreases to - i,
    {
        push_char(&mut s, v[i]);
        i = i + 1;
        assert(s@ == v@.subrange(from as int, i as int));
    }
    s
}

/// `n` copies of `s`.
pub fn repeat_str(s: &str, n: usize) -> (r: String)
    ensures
        r@ == repeat(s@, n as nat),
{
    let mut r = String::new();
    let mut i: usize = 0;
    while i < n
        invariant
            i <= n,
            r@ == repeat(s@, i as nat),
        decreases n - i,
    {
        push_str(&mut r, s);
        i = i + 1;
    }
    r
}

/// The pieces of `parts` joined with `sep`, as `[String]::join` gives them.
pub fn join_strings(parts: &Vec<String>, sep: &str) -> (r: String)
    ensures
        r@ == join(parts@.map_values(|p: String| p@), sep@),
{
    let ghost views = parts@.map_values(|p: String| p@);
    let mut r = String::new();
    let mut i: usize = 0;
    while i < parts.len()
        invariant
            i <= parts.len(),
            views == parts@.map_values(|p: String| p@),
            r@ == join(views.take(i as int), sep@),
        decreases parts.len() - i,
    {
        assert(views.take(i + 1).drop_last() =~= views.take(i as int));
        if i > 0 {
            push_str(&mut r, sep);
        }
        push_str(&mut r, parts[i].as_str());
        i = i + 1;
    }
    assert(views.take(parts.len() as int) =~= views);
    r
}

/// The decimal digit character of `d`.
fn digit(d: usize) -> (c: char)
    requires
        d < 10,
    ensures
        c == digit_char(d as nat),
{
    if d == 0 { '0' }
    else if d == 1 { '1' }
    else if d == 2 { '2' }
    else if d == 3 { '3' }
    else if d == 4 { '4' }
    else if d == 5 { '5' }
    else if d == 6 { '6' }
    else if d == 7 { '7' }
    else if d == 8 { '8' }
    else { '9' }
}

/// Appends the decimal notation of `n`.
pub fn push_decimal(s: &mut String, n: usize)
    ensures
        final(s)@ == old(s)@ + decimal(n as nat),
    decreases n,
{
    if n < 10 {
        push_char(s, digit(n));
        assert(decimal(n as nat) == seq![digit_char(n as nat)]);
    } else {
        push_decimal(s, n / 10);
        push_char(s, digit(n % 10));
    }
}

/// The number of spaces at the start of `v[from..to]`.
pub fn count_leading_spaces(v: &Vec<char>, from: usize, to: usize) -> (k: usize)
    requires
        from <= to <= v.len(),
    ensures
        k == leading_spaces(v@.subrange(from as int, to as int)),
        k <= to - from,
{
    let ghost l = v@.subrange(from as int, to as int);
    let mut j = from;
    while j < to && v[j] == ' '
        invariant
            from <= j <= to <= v.len(),
            l == v@.subrange(from as int, to as int),
            forall|i: int| 0 <= i < j - from ==> l[i] == ' ',
        decreases to - j,
    {
        j = j + 1;
    }
    proof {
        lemma_leading_spaces(l, (j - from) as nat);
    }
    j - from
}

/// The ranges of the pieces of `v[from..to]` between occurrences of `sep`.
pub fn split_ranges(v: &Vec<char>, from: usize, to: usize, sep: char) -> (r: Vec<(usize, usize)>)
    requires
        from <= to <= v.len(),
    ensures
        r.len() == split(v@.subrange(from as int, to as int), sep).len(),
        r.len() >= 1,
        forall|i: int| 0 <= i < r.len() ==> from <= (#[trigger] r[i]).0 <= r[i].1 <= to,
        forall|i: int| 0 <= i < r.len() ==> v@.subrange((#[trigger] r[i]).0 as int, r[i].1 as int)
            == split(v@.subrange(from as int, to as int), sep)[i],
{
    let mut r: Vec<(usize, usize)> = Vec::new();
    let mut start = from;
    let mut i = from;
    while i < to
        invariant
            from <= start <= i <= to <= v.len(),
            r.len() + 1 == split(v@.subrange(from as int, i as int), sep).len(),
            forall|j: int| 0 <= j < r.len() ==> from <= (#[trigger] r[j]).0 <= r[j].1 <= i,
            forall|j: int| 0 <= j < r.len() ==> v@.subrange((#[trigger] r[j]).0 as int, r[j].1 as int)
                == split(v@.subrange(from as int, i as int), sep)[j],
            v@.subrange(start as int, i as int) == split(v@.subrange(from as int, i as int), sep).last(),
        decreases to - i,
    {
        let ghost before = split(v@.subrange(from as int, i as int), sep);
        assert(v@.subrange(from as int, i + 1).drop_last() =~= v@.subrange(from as int, i as int));
        if v[i] == sep {
            r.push((start, i));
            start = i + 1;
            assert(v@.subrange(start as int, i + 1) =~= Seq::<char>::empty());
        } else {
            assert(v@.subrange(start as int, i + 1) =~= v@.subrange(start as int, i as int).push(v[i as int]));
        }
        i = i + 1;
    }
    r.push((start, to));
    proof {
        lemma_split_len(v@.subrange(from as int, to as int), sep);
    }
    r
}

/// Whether `v[from..to]` is exactly `w`.
pub fn range_eq(v: &Vec<char>, from: usize, to: usize, w: &Vec<char>) -> (b: bool)
    requires
        from <= to <= v.len(),
    ensures
        b == (v@.subrange(from as int, to as int) == w@),
{
    if to - from != w.len() {
        return false;
    }
    let mut i: usize = 0;
    while i < w.len()
        invariant
            to - from == w.len(),
            from <= to <= v.len(),
            i <= w.len(),
            forall|j: int| 0 <= j < i ==> v@[from + j] == w@[j],
        decreases w.len() - i,
    {
        if v[from + i] != w[i] {
            assert(v@.subrange(from as int, to as int)[i as int] != w@[i as int]);
            return false;
        }
        i = i + 1;
    }
    assert(v@.subrange(from as int, to as int) =~= w@);
    true
}

/// The string made of `v[from..to]` without the characters equal to `c`.
pub fn string_without(v: &Vec<char>, from: usize, to: usize, c: char) -> (s: String)
    requires
        from <= to <= v.len(),
    ensures
        s@ == remove_char(v@.subrange(from as int, to as int), c),
{
    let mut s = String::new();
    let mut i = from;
    while i < to
        invariant
            from <= i <= to <= v.len(),
            s@ == remove_char(v@.subrange(from as int, i as int), c),
        decreases to - i,
    {
        assert(v@.subrange(from as int, i + 1).drop_last() =~= v@.subrange(from as int, i as int));
        if v[i] != c {
            push_char(&mut s, v[i]);
        }
        i = i + 1;
    }
    s
}

} // verus!

verus! {

/// A piece without `c` splits into itself alone.
pub proof fn lemma_split_no_sep(a: Seq<char>, c: char)
    requires
        !a.contains(c),
    ensures
        split(a, c) == seq![a],
    decreases a.len(),
{
    if a.len() > 0 {
        assert(!a.drop_last().contains(c)) by {
            if a.drop_last().contains(c) {
                let k = choose|k: int| 0 <= k < a.drop_last().len() && a.drop_last()[k] == c;
                assert(a[k] == c);
            }
        }
        lemma_split_no_sep(a.drop_last(), c);
        assert(a.last() != c) by {
            assert(a[a.len() - 1] == a.last());
        }
        assert(a.drop_last().push(a.last()) =~= a);
        assert(seq![a.drop_last()].update(0, a.drop_last().push(a.last())) =~= seq![a]);
    } else {
        assert(a =~= Seq::<char>::empty());
    }
}

/// A separator followed by a piece without it adds that piece as the last one.
pub proof fn lemma_split_sep_append(a: Seq<char>, b: Seq<char>, c: char)
    requires
        !b.contains(c),
    ensures
        split(a + seq![c] + b, c) == split(a, c).push(b),
    decreases b.len(),
{
    let s = a + seq![c] + b;
    if b.len() == 0 {
        assert(s.drop_last() =~= a);
        assert(s.last() == c);
        assert(b =~= Seq::<char>::empty());
    } else {
        assert(!b.drop_last().contains(c)) by {
            if b.drop_last().contains(c) {
                let k = choose|k: int| 0 <= k < b.drop_last().len() && b.drop_last()[k] == c;
                assert(b[k] == c);
            }
        }
        lemma_split_sep_append(a, b.drop_last(), c);
        assert(s.drop_last() =~= a + seq![c] + b.drop_last());
        assert(s.last() == b.last());
        assert(b.last() != c) by {
            assert(b[b.len() - 1] == b.last());
        }
        assert(b.drop_last().push(b.last()) =~= b);
        assert(split(a, c).push(b.drop_last()).update(split(a, c).len() as int, b) =~= split(a, c).push(b));
    }
}

/// Splitting lines joined with a separator they do not hold gives the lines back.
pub proof fn lemma_split_join(ls: Seq<Seq<char>>, c: char)
    requires
        ls.len() > 0,
        forall|i: int| 0 <= i < ls.len() ==> !(#[trigger] ls[i]).contains(c),
    ensures
        split(join(ls, seq![c]), c) == ls,
    decreases ls.len(),
{
    if ls.len() == 1 {
        lemma_split_no_sep(ls[0], c);
        assert(seq![ls[0]] =~= ls);
    } else {
        let d = ls.drop_last();
        assert forall|i: int| 0 <= i < d.len() implies !(#[trigger] d[i]).contains(c) by {
            assert(d[i] == ls[i]);
        }
        lemma_split_join(d, c);
        assert(!ls.last().contains(c)) by {
            assert(ls[ls.len() - 1] == ls.last());
        }
        lemma_split_sep_append(join(d, seq![c]), ls.last(), c);
        assert(d.push(ls.last()) =~= ls);
    }
}

/// Text after a prefix leaves the pieces of the prefix, but for its last one, as they were.
pub proof fn lemma_split_prefix(x: Seq<char>, y: Seq<char>, c: char)
    ensures
        split(x + y, c).len() >= split(x, c).len(),
        forall|j: int| 0 <= j < split(x, c).len() - 1 ==> #[trigger] split(x + y, c)[j] == split(x, c)[j],
    decreases y.len(),
{
    lemma_split_len(x, c);
    if y.len() == 0 {
        assert(x + y =~= x);
    } else {
        lemma_split_prefix(x, y.drop_last(), c);
        assert((x + y).drop_last() =~= x + y.drop_last());
        lemma_split_len(x + y.drop_last(), c);
    }
}

/// The first piece of `a`, a separator and more is `a` when `a` holds no separator.
pub proof fn lemma_split_first(a: Seq<char>, b: Seq<char>, c: char)
    requires
        !a.contains(c),
    ensures
        split(a + seq![c] + b, c)[0] == a,
{
    lemma_split_no_sep(a, c);
    lemma_split_sep_append(a, Seq::empty(), c);
    assert(a + seq![c] + Seq::<char>::empty() =~= a + seq![c]);
    assert(a + seq![c] + b =~= (a + seq![c]) + b);
    lemma_split_prefix(a + seq![c], b, c);
}

/// Joining two non-empty runs of pieces puts the separator between their joins.
pub proof fn lemma_join_append(a: Seq<Seq<char>>, b: Seq<Seq<char>>, sep: Seq<char>)
    requires
        a.len() > 0,
        b.len() > 0,
    ensures
        join(a + b, sep) == join(a, sep) + sep + join(b, sep),
    decreases b.len(),
{
    if b.len() == 1 {
        assert((a + b).drop_last() =~= a);
        assert((a + b).last() == b[0]);
    } else {
        lemma_join_append(a, b.drop_last(), sep);
        assert((a + b).drop_last() =~= a + b.drop_last());
        assert((a + b).last() == b.last());
    }
}

/// Copies of a run of spaces are spaces.
pub proof fn lemma_repeat_spaces(s: Seq<char>, n: nat)
    requires
        forall|i: int| 0 <= i < s.len() ==> s[i] == ' ',
    ensures
        repeat(s, n).len() == n * s.len(),
        forall|i: int| 0 <= i < repeat(s, n).len() ==> #[trigger] repeat(s, n)[i] == ' ',
    decreases n,
{
    if n > 0 {
        lemma_repeat_spaces(s, (n - 1) as nat);
        let m = (n - 1) as nat;
        let r = repeat(s, m);
        assert(repeat(s, n) == r + s);
        assert(m * s.len() + s.len() == n * s.len()) by (nonlinear_arith)
            requires m + 1 == n;
        assert forall|i: int| 0 <= i < repeat(s, n).len() implies #[trigger] repeat(s, n)[i] == ' ' by {
            if i < r.len() {
                assert(repeat(s, n)[i] == r[i]);
            } else {
                assert(repeat(s, n)[i] == s[i - r.len()]);
            }
        }
    } else {
        assert(n * s.len() == 0) by (nonlinear_arith)
            requires n == 0;
    }
}

/// Spaces repeated and then text that does not start with a space: the spaces are the leading ones.
pub proof fn lemma_spaces_then(sp: Seq<char>, v: Seq<char>)
    requires
        forall|i: int| 0 <= i < sp.len() ==> sp[i] == ' ',
        v.len() == 0 || v[0] != ' ',
    ensures
        leading_spaces(sp + v) == sp.len(),
        (sp + v).skip(sp.len() as int) == v,
{
    let s = sp + v;
    assert forall|i: int| 0 <= i < sp.len() implies s[i] == ' ' by {}
    if sp.len() < s.len() {
        assert(s[sp.len() as int] == v[0]);
    }
    lemma_leading_spaces(s, sp.len());
    assert(s.skip(sp.len() as int) =~= v);
}

} // verus!

verus! {

/// Text, a separator and more text split into the pieces of the first and then those of the second.
pub proof fn lemma_split_concat(x: Seq<char>, y: Seq<char>, c: char)
    ensures
        split(x + seq![c] + y, c) == split(x, c) + split(y, c),
    decreases y.len(),
{
    let s = x + seq![c] + y;
    lemma_split_len(x, c);
    if y.len() == 0 {
        assert(s.drop_last() =~= x);
        assert(s.last() == c);
        assert(split(y, c) == seq![Seq::<char>::empty()]);
        assert(split(x, c).push(Seq::<char>::empty()) =~= split(x, c) + split(y, c));
    } else {
        lemma_split_concat(x, y.drop_last(), c);
        lemma_split_len(y.drop_last(), c);
        assert(s.drop_last() =~= x + seq![c] + y.drop_last());
        assert(s.last() == y.last());
        let a = split(x, c);
        let b = split(y.drop_last(), c);
        if y.last() == c {
            assert((a + b).push(Seq::<char>::empty()) =~= a + b.push(Seq::<char>::empty()));
        } else {
            let nb = b.update(b.len() - 1, b.last().push(y.last()));
            assert((a + b).last() == b.last());
            assert((a + b).update((a + b).len() - 1, (a + b).last().push(y.last())) =~= a + nb);
        }
    }
}

} // verus!
