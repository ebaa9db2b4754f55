//! Text as a sequence of characters: splitting, joining, trimming, searching.

use vstd::prelude::*;
use vstd::utf8;
use crate::chars;

verus! {

/// `String::push` appends one character.
pub assume_specification[ String::push ](s: &mut String, c: char)
    ensures
        final(s)@ == old(s)@.push(c),
;

/// The character sequences of a list of strings.
pub open spec fn texts(v: Seq<String>) -> Seq<Seq<char>> {
    Seq::new(v.len(), |i: int| v[i]@)
}

/// The number of bytes of a text in UTF-8.
pub open spec fn byte_len(s: Seq<char>) -> nat {
    utf8::encode_utf8(s).len()
}

/// The characters at which a text is split.
pub enum Separator {
    /// White space.
    Space,
    /// Everything that is neither a letter nor a number.
    NotAlphanumeric,
    /// This one character.
    Char(char),
}

impl Separator {
    /// Whether a text is split at `c`.
    pub open spec fn at(self, c: char) -> bool {
        match self {
            Separator::Space => chars::white_space(c),
            Separator::NotAlphanumeric => !chars::alphanumeric(c),
            Separator::Char(one) => c == one,
        }
    }

    fn splits_at(&self, c: char) -> (res: bool)
        ensures
            res == self.at(c),
    {
        match self {
            Separator::Space => c.is_whitespace(),
            Separator::NotAlphanumeric => !c.is_alphanumeric(),
            Separator::Char(one) => c == *one,
        }
    }
}

/// The pieces of `s` between the characters at which `sep` splits, empty pieces included.
pub open spec fn split_on(s: Seq<char>, sep: Separator) -> Seq<Seq<char>>
    decreases s.len(),
{
    if s.len() == 0 {
        seq![Seq::<char>::empty()]
    } else {
        let front = split_on(s.drop_last(), sep);
        if sep.at(s.last()) {
            front.push(Seq::<char>::empty())
        } else {
            front.drop_last().push(front.last().push(s.last()))
        }
    }
}

/// The members of `parts` that are not empty, in order.
pub open spec fn non_empty(parts: Seq<Seq<char>>) -> Seq<Seq<char>> {
    parts.filter(|p: Seq<char>| p.len() > 0)
}

/// The words of a text: its maximal runs of characters other than white space.
pub open spec fn words(s: Seq<char>) -> Seq<Seq<char>> {
    non_empty(split_on(s, Separator::Space))
}

/// `parts` one after the other, with `sep` between neighbours.
pub open spec fn join(parts: Seq<Seq<char>>, sep: Seq<char>) -> Seq<char>
    decreases parts.len(),
{
    if parts.len() == 0 {
        Seq::empty()
    } else if parts.len() == 1 {
        parts[0]
    } else {
        join(parts.drop_last(), sep) + sep + parts.last()
    }
}

/// `s` without the white space at its start.
pub open spec fn trim_start(s: Seq<char>) -> Seq<char>
    decreases s.len(),
{
    if s.len() > 0 && chars::white_space(s[0]) {
        trim_start(s.skip(1))
    } else {
        s
    }
}

/// `s` without the white space at its end.
pub open spec fn trim_end(s: Seq<char>) -> Seq<char>
    decreases s.len(),
{
    if s.len() > 0 && chars::white_space(s.last()) {
        trim_end(s.drop_last())
    } else {
        s
    }
}

/// `s` without the white space at either end.
pub open spec fn trim(s: Seq<char>) -> Seq<char> {
    trim_end(trim_start(s))
}

/// Whether `needle` stands somewhere in `hay`.
pub open spec fn occurs(needle: Seq<char>, hay: Seq<char>) -> bool {
    exists|i: int|
        0 <= i && i + needle.len() <= hay.len() && #[trigger] hay.subrange(
            i,
            i + needle.len(),
        ) == needle
}

/// Whether `prefix` starts `s`.
pub open spec fn starts_with(s: Seq<char>, prefix: Seq<char>) -> bool {
    prefix.len() <= s.len() && s.take(prefix.len() as int) == prefix
}

/// At most the first `n` characters of `s`.
pub open spec fn at_most(s: Seq<char>, n: nat) -> Seq<char> {
    if s.len() <= n {
        s
    } else {
        s.take(n as int)
    }
}

/// `s` with every `from` replaced by `to`.
pub open spec fn replace_char(s: Seq<char>, from: char, to: char) -> Seq<char> {
    Seq::new(
        s.len(),
        |i: int|
            if s[i] == from {
                to
            } else {
                s[i]
            },
    )
}

/// `s` with every carriage return that a line feed follows left out.
pub open spec fn unix_lines(s: Seq<char>) -> Seq<char>
    decreases s.len(),
{
    if s.len() == 0 {
        s
    } else if s.len() >= 2 && s[s.len() - 2] == '\r' && s.last() == '\n' {
        unix_lines(s.drop_last().drop_last()).push('\n')
    } else {
        unix_lines(s.drop_last()).push(s.last())
    }
}

/// Lexicographic order by character code.
pub open spec fn text_le(a: Seq<char>, b: Seq<char>) -> bool
    decreases a.len(),
{
    if a.len() == 0 {
        true
    } else if b.len() == 0 {
        false
    } else if a[0] != b[0] {
        a[0] < b[0]
    } else {
        text_le(a.skip(1), b.skip(1))
    }
}

/// The characters of a text.
pub fn to_chars(text: &str) -> (res: Vec<char>)
    ensures
        res@ == text@,
{
    let mut res: Vec<char> = Vec::new();
    for c in it: text.chars()
        invariant
            res@ == it.seq().take(it.index() as int),
            it.seq() == text@,
    {
        res.push(c);
        assert(res@ =~= it.seq().take(it.index() + 1));
    }
    assert(text@.take(text@.len() as int) =~= text@);
    res
}

/// Appends the characters from `from` up to, not including, `to`.
pub fn push_range(s: &mut String, chars: &Vec<char>, from: usize, to: usize)
    requires
        from <= to <= chars.len(),
    ensures
        final(s)@ == old(s)@ + chars@.subrange(from as int, to as int),
{
    for i in from..to
        invariant
            from <= to <= chars.len(),
            s@ == old(s)@ + chars@.subrange(from as int, i as int),
    {
        s.push(chars[i]);
        assert(s@ =~= old(s)@ + chars@.subrange(from as int, i + 1));
    }
}

/// The text that a range of characters spells.
pub fn from_range(chars: &Vec<char>, from: usize, to: usize) -> (res: String)
    requires
        from <= to <= chars.len(),
    ensures
        res@ == chars@.subrange(from as int, to as int),
{
    let mut res = String::new();
    push_range(&mut res, chars, from, to);
    assert(res@ =~= chars@.subrange(from as int, to as int));
    res
}

/// A copy of a text.
pub fn copy(text: &str) -> (res: String)
    ensures
        res@ == text@,
{
    text.to_owned()
}

/// The number of bytes of a text.
pub fn utf8_len(text: &str) -> (res: usize)
    ensures
        res == byte_len(text@),
{
    text.as_bytes().len()
}

/// Whether two texts are the same.
pub fn same(a: &str, b: &str) -> (res: bool)
    ensures
        res == (a@ == b@),
{
    if utf8_len(a) != utf8_len(b) {
        return false;
    }
    let x = to_chars(a);
    let y = to_chars(b);
    if x.len() != y.len() {
        return false;
    }
    for i in 0..x.len()
        invariant
            x.len() == y.len(),
            x@ == a@,
            y@ == b@,
            forall|j: int| 0 <= j < i ==> x@[j] == y@[j],
    {
        if x[i] != y[i] {
            return false;
        }
    }
    assert(x@ =~= y@);
    true
}

pub proof fn lemma_split_on_len(s: Seq<char>, sep: Separator)
    ensures
        split_on(s, sep).len() > 0,
    decreases s.len(),
{
    if s.len() > 0 {
        lemma_split_on_len(s.drop_last(), sep);
    }
}

/// Splits a text.
pub fn split_by(text: &str, sep: Separator) -> (res: Vec<String>)
    ensures
        texts(res@) == split_on(text@, sep),
{
    let chars = to_chars(text);
    let mut parts: Vec<String> = Vec::new();
    let mut current = String::new();
    for i in 0..chars.len()
        invariant
            texts(parts@).push(current@) == split_on(chars@.take(i as int), sep),
    {
        let ghost before = texts(parts@);
        let ghost done = current@;
        assert(chars@.take(i + 1).drop_last() =~= chars@.take(i as int));
        assert(before.push(done).drop_last() =~= before);
        if sep.splits_at(chars[i]) {
            parts.push(current);
            current = String::new();
            assert(texts(parts@) =~= before.push(done));
        } else {
            current.push(chars[i]);
        }
    }
    assert(chars@.take(chars@.len() as int) =~= chars@);
    let ghost before = texts(parts@);
    let ghost done = current@;
    parts.push(current);
    assert(texts(parts@) =~= before.push(done));
    parts
}

/// The members of a list of texts that are not empty.
pub fn keep_non_empty(parts: Vec<String>) -> (res: Vec<String>)
    ensures
        texts(res@) == non_empty(texts(parts@)),
{
    let mut res: Vec<String> = Vec::new();
    let ghost keep = |p: Seq<char>| p.len() > 0;
    for i in 0..parts.len()
        invariant
            texts(res@) == texts(parts@).take(i as int).filter(keep),
            keep == (|p: Seq<char>| p.len() > 0),
    {
        let ghost all = texts(parts@);
        assert(all.take(i + 1).drop_last() =~= all.take(i as int));
        reveal(Seq::filter);
        if !parts[i].as_str().is_empty() {
            let ghost before = texts(res@);
            res.push(parts[i].clone());
            assert(texts(res@) =~= before.push(parts@[i as int]@));
        }
    }
    assert(texts(parts@).take(parts@.len() as int) =~= texts(parts@));
    res
}

/// The words of a text.
pub fn split_words(text: &str) -> (res: Vec<String>)
    ensures
        texts(res@) == words(text@),
{
    keep_non_empty(split_by(text, Separator::Space))
}

/// Joins the texts from `from` up to, not including, `to`.
pub fn join_range(parts: &Vec<String>, from: usize, to: usize, sep: &str) -> (res: String)
    requires
        from <= to <= parts.len(),
    ensures
        res@ == join(texts(parts@).subrange(from as int, to as int), sep@),
{
    let mut res = String::new();
    let ghost all = texts(parts@);
    for i in from..to
        invariant
            from <= to <= parts.len(),
            all == texts(parts@),
            res@ == join(all.subrange(from as int, i as int), sep@),
    {
        let ghost next = all.subrange(from as int, i + 1);
        assert(next.drop_last() =~= all.subrange(from as int, i as int));
        assert(next.last() == parts@[i as int]@);
        if i > from {
            res.append(sep);
            res.append(parts[i].as_str());
        } else {
            res.append(parts[i].as_str());
            assert(res@ =~= parts@[i as int]@);
        }
    }
    res
}

/// Joins texts.
pub fn join_all(parts: &Vec<String>, sep: &str) -> (res: String)
    ensures
        res@ == join(texts(parts@), sep@),
{
    let res = join_range(parts, 0, parts.len(), sep);
    assert(texts(parts@).subrange(0, parts@.len() as int) =~= texts(parts@));
    res
}

/// A text without the white space at its start.
pub fn start_trimmed(text: &str) -> (res: String)
    ensures
        res@ == trim_start(text@),
{
    let chars = to_chars(text);
    let mut from: usize = 0;
    assert(chars@.skip(0) =~= chars@);
    while from < chars.len() && chars[from].is_whitespace()
        invariant
            from <= chars.len(),
            trim_start(chars@) == trim_start(chars@.skip(from as int)),
        decreases chars.len() - from,
    {
        assert(chars@.skip(from as int).skip(1) =~= chars@.skip(from + 1));
        from = from + 1;
    }
    assert(chars@.subrange(from as int, chars@.len() as int) =~= chars@.skip(from as int));
    from_range(&chars, from, chars.len())
}

/// Trims the white space at either end of a text.
pub fn trimmed(text: &str) -> (res: String)
    ensures
        res@ == trim(text@),
{
    let chars = to_chars(text);
    let mut from: usize = 0;
    assert(chars@.skip(0) =~= chars@);
    while from < chars.len() && chars[from].is_whitespace()
        invariant
            from <= chars.len(),
            trim_start(chars@) == trim_start(chars@.skip(from as int)),
        decreases chars.len() - from,
    {
        assert(chars@.skip(from as int).skip(1) =~= chars@.skip(from + 1));
        from = from + 1;
    }
    assert(trim_start(chars@) == chars@.skip(from as int));
    let ghost front = chars@.skip(from as int);
    let mut to: usize = chars.len();
    assert(chars@.subrange(from as int, to as int) =~= front);
    while from < to && chars[to - 1].is_whitespace()
        invariant
            from <= to <= chars.len(),
            trim_end(front) == trim_end(chars@.subrange(from as int, to as int)),
        decreases to,
    {
        let ghost now = chars@.subrange(from as int, to as int);
        assert(now.drop_last() =~= chars@.subrange(from as int, to - 1));
        assert(now.last() == chars@[to - 1]);
        to = to - 1;
    }
    let ghost now = chars@.subrange(from as int, to as int);
    assert(now.len() > 0 ==> now.last() == chars@[to - 1]);
    from_range(&chars, from, to)
}

/// Whether `needle` starts at position `at` of `hay`.
pub fn matches_at(hay: &Vec<char>, needle: &Vec<char>, at: usize) -> (res: bool)
    requires
        at + needle.len() <= hay.len(),
    ensures
        res == (hay@.subrange(at as int, at + needle.len()) == needle@),
{
    for j in 0..needle.len()
        invariant
            at + needle.len() <= hay.len(),
            forall|k: int| 0 <= k < j ==> hay@[at + k] == needle@[k],
    {
        if hay[at + j] != needle[j] {
            assert(hay@.subrange(at as int, at + needle.len())[j as int] != needle@[j as int]);
            return false;
        }
    }
    assert(hay@.subrange(at as int, at + needle.len()) =~= needle@);
    true
}

/// Whether a text stands somewhere in another.
pub fn contains_text(hay: &str, needle: &str) -> (res: bool)
    ensures
        res == occurs(needle@, hay@),
{
    let h = to_chars(hay);
    let n = to_chars(needle);
    if n.len() > h.len() {
        return false;
    }
    let last: usize = h.len() - n.len();
    let mut at: usize = 0;
    while at <= last
        invariant
            h@ == hay@,
            n@ == needle@,
            n.len() <= h.len(),
            last == h.len() - n.len(),
            at <= last + 1,
            forall|i: int| 0 <= i < at ==> #[trigger] h@.subrange(i, i + n.len()) != n@,
        decreases last + 1 - at,
    {
        if matches_at(&h, &n, at) {
            assert(hay@.subrange(at as int, at + needle@.len()) == needle@);
            return true;
        }
        if at == last {
            assert(forall|i: int|
                0 <= i && i + needle@.len() <= hay@.len() ==> #[trigger] hay@.subrange(
                    i,
                    i + needle@.len(),
                ) != needle@);
            return false;
        }
        at = at + 1;
    }
    false
}

/// Whether a text starts with another.
pub fn has_prefix(text: &str, prefix: &str) -> (res: bool)
    ensures
        res == starts_with(text@, prefix@),
{
    let t = to_chars(text);
    let p = to_chars(prefix);
    if p.len() > t.len() {
        return false;
    }
    assert(t@.subrange(0, p@.len() as int) =~= t@.take(p@.len() as int));
    matches_at(&t, &p, 0)
}

/// A text without its first `n` characters.
pub fn without_first(text: &str, n: usize) -> (res: String)
    requires
        n <= text@.len(),
    ensures
        res@ == text@.skip(n as int),
{
    let chars = to_chars(text);
    assert(chars@.subrange(n as int, chars@.len() as int) =~= chars@.skip(n as int));
    from_range(&chars, n, chars.len())
}

/// At most the first `n` characters of a text.
pub fn first_chars(text: &str, n: usize) -> (res: String)
    ensures
        res@ == at_most(text@, n as nat),
{
    let chars = to_chars(text);
    let to: usize = if chars.len() <= n {
        chars.len()
    } else {
        n
    };
    assert(chars@.subrange(0, to as int) =~= at_most(chars@, n as nat));
    from_range(&chars, 0, to)
}

/// A text with one character replaced throughout by another.
pub fn with_char_replaced(text: &str, from: char, to: char) -> (res: String)
    ensures
        res@ == replace_char(text@, from, to),
{
    let chars = to_chars(text);
    let mut res = String::new();
    for i in 0..chars.len()
        invariant
            res@ == replace_char(chars@, from, to).take(i as int),
    {
        let ghost whole = replace_char(chars@, from, to);
        assert(whole.take(i + 1) =~= whole.take(i as int).push(whole[i as int]));
        if chars[i] == from {
            res.push(to);
        } else {
            res.push(chars[i]);
        }
    }
    assert(replace_char(chars@, from, to).take(chars@.len() as int) =~= replace_char(
        chars@,
        from,
        to,
    ));
    res
}

/// A text with its ASCII capitals lowered.
pub fn with_ascii_lowered(text: &str) -> (res: String)
    ensures
        res@ == text@.map_values(|c: char| chars::ascii_lower(c)),
{
    let chars = to_chars(text);
    let ghost whole = chars@.map_values(|c: char| chars::ascii_lower(c));
    let mut res = String::new();
    for i in 0..chars.len()
        invariant
            whole == chars@.map_values(|c: char| chars::ascii_lower(c)),
            res@ == whole.take(i as int),
    {
        assert(whole.take(i + 1) =~= whole.take(i as int).push(whole[i as int]));
        res.push(chars::to_ascii_lower(chars[i]));
    }
    assert(whole.take(chars@.len() as int) =~= whole);
    res
}

/// A text whose lines end in a line feed alone.
pub fn with_unix_lines(text: &str) -> (res: String)
    ensures
        res@ == unix_lines(text@),
{
    let chars = to_chars(text);
    let mut res = String::new();
    let mut i: usize = 0;
    while i < chars.len()
        invariant
            i <= chars.len(),
            res@ == unix_lines(chars@.take(i as int)),
            0 < i < chars.len() ==> !(chars@[i - 1] == '\r' && chars@[i as int] == '\n'),
        decreases chars.len() - i,
    {
        let ghost now = chars@.take(i + 1);
        assert(now.drop_last() =~= chars@.take(i as int));
        if chars[i] == '\r' && i + 1 < chars.len() && chars[i + 1] == '\n' {
            let ghost next = chars@.take(i + 2);
            assert(next.drop_last().drop_last() =~= chars@.take(i as int));
            res.push('\n');
            i = i + 2;
        } else {
            res.push(chars[i]);
            i = i + 1;
        }
    }
    assert(chars@.take(chars@.len() as int) =~= chars@);
    res
}

/// Whether one text comes before another, or is the same, in the order of character codes.
pub fn is_le(a: &str, b: &str) -> (res: bool)
    ensures
        res == text_le(a@, b@),
{
    let x = to_chars(a);
    let y = to_chars(b);
    let mut i: usize = 0;
    assert(x@.skip(0) =~= x@);
    assert(y@.skip(0) =~= y@);
    while i < x.len() && i < y.len()
        invariant
            x@ == a@,
            y@ == b@,
            i <= x.len(),
            i <= y.len(),
            text_le(a@, b@) == text_le(x@.skip(i as int), y@.skip(i as int)),
        decreases x.len() - i,
    {
        assert(x@.skip(i as int)[0] == x@[i as int]);
        assert(y@.skip(i as int)[0] == y@[i as int]);
        if x[i] != y[i] {
            return x[i] < y[i];
        }
        assert(x@.skip(i as int).skip(1) =~= x@.skip(i + 1));
        assert(y@.skip(i as int).skip(1) =~= y@.skip(i + 1));
        i = i + 1;
    }
    i == x.len()
}

/// The order of texts is total.
pub proof fn law_text_order_total(a: Seq<char>, b: Seq<char>)
    ensures
        text_le(a, b) || text_le(b, a),
    decreases a.len(),
{
    if a.len() > 0 && b.len() > 0 && a[0] == b[0] {
        law_text_order_total(a.skip(1), b.skip(1));
    }
}

/// The order of texts is transitive.
pub proof fn law_text_order_transitive(a: Seq<char>, b: Seq<char>, c: Seq<char>)
    requires
        text_le(a, b),
        text_le(b, c),
    ensures
        text_le(a, c),
    decreases a.len(),
{
    if a.len() > 0 && b.len() > 0 && c.len() > 0 && a[0] == b[0] && b[0] == c[0] {
        law_text_order_transitive(a.skip(1), b.skip(1), c.skip(1));
    }
}

/// Texts that come before each other are the same text.
pub proof fn law_text_order_antisymmetric(a: Seq<char>, b: Seq<char>)
    requires
        text_le(a, b),
        text_le(b, a),
    ensures
        a == b,
    decreases a.len(),
{
    if a.len() > 0 && b.len() > 0 {
        law_text_order_antisymmetric(a.skip(1), b.skip(1));
        assert(a =~= seq![a[0]] + a.skip(1));
        assert(b =~= seq![b[0]] + b.skip(1));
    } else {
        assert(a =~= b);
    }
}

/// The lower-case form of a text.
pub uninterp spec fn lowercase(s: Seq<char>) -> Seq<char>;

/// `str::to_lowercase` gives the lower-case form of a text by the Unicode tables. It depends on
/// the text alone and is named, not described; of a text of ASCII characters it lowers the
/// capitals.
pub assume_specification[ str::to_lowercase ](s: &str) -> (res: String)
    ensures
        res@ == lowercase(s@),
        (forall|i: int| 0 <= i < s@.len() ==> (#[trigger] s@[i] as u32) < 0x80) ==> res@
            == s@.map_values(|c: char| chars::ascii_lower(c)),
;

/// The runs of letters and numbers of a text in lower case that are at least `min_bytes` long.
pub open spec fn terms(s: Seq<char>, min_bytes: nat) -> Seq<Seq<char>> {
    long_enough(split_on(lowercase(s), Separator::NotAlphanumeric), min_bytes)
}

/// The members of `parts` that are at least `min_bytes` long, in order.
pub open spec fn long_enough(parts: Seq<Seq<char>>, min_bytes: nat) -> Seq<Seq<char>> {
    parts.filter(|p: Seq<char>| byte_len(p) >= min_bytes)
}

/// How many members of `terms` stand in `hay`.
pub open spec fn count_in(terms: Seq<Seq<char>>, hay: Seq<char>) -> nat
    decreases terms.len(),
{
    if terms.len() == 0 {
        0
    } else {
        count_in(terms.drop_last(), hay) + (if occurs(terms.last(), hay) {
            1nat
        } else {
            0nat
        })
    }
}

/// The members of a list of texts that are at least `min_bytes` long.
pub fn keep_long_enough(parts: Vec<String>, min_bytes: usize) -> (res: Vec<String>)
    ensures
        texts(res@) == long_enough(texts(parts@), min_bytes as nat),
{
    let mut res: Vec<String> = Vec::new();
    let ghost keep = |p: Seq<char>| byte_len(p) >= min_bytes;
    for i in 0..parts.len()
        invariant
            texts(res@) == texts(parts@).take(i as int).filter(keep),
            keep == (|p: Seq<char>| byte_len(p) >= min_bytes),
    {
        let ghost all = texts(parts@);
        assert(all.take(i + 1).drop_last() =~= all.take(i as int));
        reveal(Seq::filter);
        if utf8_len(parts[i].as_str()) >= min_bytes {
            let ghost before = texts(res@);
            res.push(parts[i].clone());
            assert(texts(res@) =~= before.push(parts@[i as int]@));
        }
    }
    assert(texts(parts@).take(parts@.len() as int) =~= texts(parts@));
    assert(keep =~= (|p: Seq<char>| byte_len(p) >= min_bytes as nat));
    res
}

/// The terms of a text.
pub fn split_terms(text: &str, min_bytes: usize) -> (res: Vec<String>)
    ensures
        texts(res@) == terms(text@, min_bytes as nat),
{
    let lower = text.to_lowercase();
    keep_long_enough(split_by(lower.as_str(), Separator::NotAlphanumeric), min_bytes)
}

/// Counts the terms that stand in a text.
pub fn count_terms(terms: &Vec<String>, hay: &str) -> (res: usize)
    ensures
        res == count_in(texts(terms@), hay@),
        res <= terms.len(),
{
    let mut res: usize = 0;
    for i in 0..terms.len()
        invariant
            res == count_in(texts(terms@).take(i as int), hay@),
            res <= i,
    {
        let ghost all = texts(terms@);
        assert(all.take(i + 1).drop_last() =~= all.take(i as int));
        if contains_text(hay, terms[i].as_str()) {
            res = res + 1;
        }
    }
    assert(texts(terms@).take(terms@.len() as int) =~= texts(terms@));
    res
}

/// The places of the terms that stand in a text.
pub open spec fn held_places(terms: Seq<Seq<char>>, hay: Seq<char>) -> Set<int> {
    Set::new(|k: int| 0 <= k < terms.len() && occurs(terms[k], hay))
}

/// The terms that are counted in a text are those that stand in it, each of them once.
pub proof fn law_count_in(terms: Seq<Seq<char>>, hay: Seq<char>)
    ensures
        held_places(terms, hay).finite(),
        count_in(terms, hay) == held_places(terms, hay).len(),
    decreases terms.len(),
{
    let all = held_places(terms, hay);
    if terms.len() == 0 {
        assert(all =~= Set::<int>::empty());
    } else {
        let front = terms.drop_last();
        let fewer = held_places(front, hay);
        let last = terms.len() - 1;
        law_count_in(front, hay);
        assert(forall|k: int| 0 <= k < last ==> front[k] == terms[k]);
        if occurs(terms.last(), hay) {
            assert(all =~= fewer.insert(last));
        } else {
            assert(all =~= fewer);
        }
    }
}

/// Whether a text is made of ASCII characters alone.
pub open spec fn ascii(s: Seq<char>) -> bool {
    forall|i: int| 0 <= i < s.len() ==> (#[trigger] s[i] as u32) < 0x80
}

/// A text with its ASCII capitals lowered.
pub open spec fn lowered(s: Seq<char>) -> Seq<char> {
    s.map_values(|c: char| chars::ascii_lower(c))
}

/// What stands at a place of a text stands in it.
pub proof fn lemma_occurs_at(needle: Seq<char>, hay: Seq<char>, i: int)
    requires
        0 <= i,
        i + needle.len() <= hay.len(),
        forall|k: int| 0 <= k < needle.len() ==> hay[i + k] == #[trigger] needle[k],
    ensures
        occurs(needle, hay),
{
    assert(hay.subrange(i, i + needle.len()) =~= needle);
}

/// What stands in a text stands in a longer one.
pub proof fn lemma_occurs_in_part(needle: Seq<char>, a: Seq<char>, part: Seq<char>, b: Seq<char>)
    requires
        occurs(needle, part),
    ensures
        occurs(needle, a + part + b),
{
    let i = choose|i: int|
        0 <= i && i + needle.len() <= part.len() && #[trigger] part.subrange(i, i + needle.len())
            == needle;
    let all = a + part + b;
    assert(all.subrange(a.len() + i, a.len() + i + needle.len()) =~= part.subrange(
        i,
        i + needle.len(),
    ));
}

/// Whether a text is not empty and has no spaces.
pub open spec fn is_word(s: Seq<char>) -> bool {
    s.len() > 0 && !s.contains(' ')
}

/// A word that stands in two texts with a space between them stands in one of them.
pub proof fn lemma_word_in_either(word: Seq<char>, a: Seq<char>, b: Seq<char>)
    requires
        is_word(word),
        occurs(word, a.push(' ') + b),
    ensures
        occurs(word, a) || occurs(word, b),
{
    let all = a.push(' ') + b;
    let n = word.len() as int;
    let i = choose|i: int|
        0 <= i && i + word.len() <= all.len() && #[trigger] all.subrange(i, i + word.len()) == word;
    let at = a.len() as int;
    if i <= at < i + n {
        assert(all.subrange(i, i + n)[at - i] == ' ');
        assert(word[at - i] == ' ');
    } else if i + n <= at {
        assert(a.subrange(i, i + n) =~= word);
    } else {
        let j = i - at - 1;
        assert(b.subrange(j, j + n) =~= all.subrange(i, i + n));
    }
}

/// Whether no character of `s` is one at which `sep` splits.
pub open spec fn unsplit(s: Seq<char>, sep: Separator) -> bool {
    forall|i: int| 0 <= i < s.len() ==> !sep.at(#[trigger] s[i])
}

/// A piece of a split text holds none of the characters at which the text was split.
pub proof fn law_split_pieces(s: Seq<char>, sep: Separator)
    ensures
        split_on(s, sep).len() > 0,
        forall|k: int| 0 <= k < split_on(s, sep).len() ==> unsplit(#[trigger] split_on(s, sep)[k], sep),
    decreases s.len(),
{
    if s.len() > 0 {
        law_split_pieces(s.drop_last(), sep);
    }
}

/// A text that holds no separator is its own only piece.
pub proof fn lemma_split_unsplit(s: Seq<char>, sep: Separator)
    requires
        unsplit(s, sep),
    ensures
        split_on(s, sep) == seq![s],
    decreases s.len(),
{
    if s.len() > 0 {
        lemma_split_unsplit(s.drop_last(), sep);
        assert(s.drop_last().push(s.last()) =~= s);
        assert(seq![s.drop_last()].drop_last().push(s) =~= seq![s]);
    } else {
        assert(s =~= Seq::<char>::empty());
    }
}

/// Splitting two texts with a separator between them splits each of them.
pub proof fn lemma_split_concat(a: Seq<char>, c: char, b: Seq<char>, sep: Separator)
    requires
        sep.at(c),
    ensures
        split_on(a.push(c) + b, sep) == split_on(a, sep) + split_on(b, sep),
    decreases b.len(),
{
    let whole = a.push(c) + b;
    if b.len() == 0 {
        assert(whole =~= a.push(c));
        assert(whole.drop_last() =~= a);
        assert(split_on(a, sep).push(Seq::<char>::empty()) =~= split_on(a, sep) + split_on(b, sep));
    } else {
        let front = b.drop_last();
        lemma_split_concat(a, c, front, sep);
        assert(whole.drop_last() =~= a.push(c) + front);
        assert(whole.last() == b.last());
        lemma_split_on_len(front, sep);
        let l = split_on(a, sep);
        let r = split_on(front, sep);
        assert((l + r).last() == r.last());
        if sep.at(b.last()) {
            assert((l + r).push(Seq::<char>::empty()) =~= l + r.push(Seq::<char>::empty()));
        } else {
            assert((l + r).drop_last() =~= l + r.drop_last());
            assert((l + r.drop_last()).push(r.last().push(b.last())) =~= l + r.drop_last().push(
                r.last().push(b.last()),
            ));
        }
    }
}

/// Whether every member of `ws` is a word: not empty, and without white space.
pub open spec fn all_words(ws: Seq<Seq<char>>) -> bool {
    forall|k: int| 0 <= k < ws.len() ==> (#[trigger] ws[k]).len() > 0 && unsplit(ws[k], Separator::Space)
}

proof fn lemma_non_empty_concat(a: Seq<Seq<char>>, b: Seq<Seq<char>>)
    ensures
        non_empty(a + b) == non_empty(a) + non_empty(b),
    decreases b.len(),
{
    reveal(Seq::filter);
    if b.len() == 0 {
        assert(a + b =~= a);
        assert(non_empty(a) + non_empty(b) =~= non_empty(a));
    } else {
        lemma_non_empty_concat(a, b.drop_last());
        assert((a + b).drop_last() =~= a + b.drop_last());
        assert(non_empty(a + b) =~= non_empty(a) + non_empty(b));
    }
}

proof fn lemma_non_empty_members(parts: Seq<Seq<char>>)
    ensures
        forall|k: int|
            0 <= k < non_empty(parts).len() ==> (#[trigger] non_empty(parts)[k]).len() > 0
                && parts.contains(non_empty(parts)[k]),
    decreases parts.len(),
{
    reveal(Seq::filter);
    if parts.len() > 0 {
        let front = parts.drop_last();
        lemma_non_empty_members(front);
        assert forall|k: int| 0 <= k < non_empty(parts).len() implies (#[trigger] non_empty(
            parts,
        )[k]).len() > 0 && parts.contains(non_empty(parts)[k]) by {
            if k < non_empty(front).len() {
                let i = choose|i: int| 0 <= i < front.len() && front[i] == non_empty(front)[k];
                assert(parts[i] == non_empty(parts)[k]);
            } else {
                assert(parts[parts.len() - 1] == non_empty(parts)[k]);
            }
        }
    }
}

/// The words of a text are not empty and hold no white space.
pub proof fn law_words_are_words(s: Seq<char>)
    ensures
        all_words(words(s)),
{
    let pieces = split_on(s, Separator::Space);
    law_split_pieces(s, Separator::Space);
    lemma_non_empty_members(pieces);
    assert forall|k: int| 0 <= k < words(s).len() implies (#[trigger] words(s)[k]).len() > 0
        && unsplit(words(s)[k], Separator::Space) by {
        let i = choose|i: int| 0 <= i < pieces.len() && pieces[i] == words(s)[k];
        assert(unsplit(pieces[i], Separator::Space));
    }
}

/// Words joined by single spaces are the words of the joined text.
pub proof fn law_words_of_join(ws: Seq<Seq<char>>)
    requires
        all_words(ws),
    ensures
        words(join(ws, seq![' '])) == ws,
    decreases ws.len(),
{
    let space = seq![' '];
    reveal_with_fuel(Seq::filter, 2);
    if ws.len() == 0 {
        assert(split_on(Seq::<char>::empty(), Separator::Space) =~= seq![Seq::<char>::empty()]);
        assert(seq![Seq::<char>::empty()].drop_last() =~= Seq::<Seq<char>>::empty());
        assert(words(join(ws, space)) =~= ws);
    } else if ws.len() == 1 {
        lemma_split_unsplit(ws[0], Separator::Space);
        assert(seq![ws[0]].drop_last() =~= Seq::<Seq<char>>::empty());
        assert(words(join(ws, space)) =~= ws);
    } else {
        let front = ws.drop_last();
        assert forall|k: int| 0 <= k < front.len() implies (#[trigger] front[k]).len() > 0
            && unsplit(front[k], Separator::Space) by {
            assert(front[k] == ws[k]);
        }
        law_words_of_join(front);
        let head = join(front, space);
        let last = ws.last();
        assert(head + space + last =~= head.push(' ') + last);
        lemma_split_concat(head, ' ', last, Separator::Space);
        lemma_split_unsplit(last, Separator::Space);
        lemma_non_empty_concat(split_on(head, Separator::Space), split_on(last, Separator::Space));
        assert(seq![last].drop_last() =~= Seq::<Seq<char>>::empty());
        assert(non_empty(seq![last]) =~= seq![last]);
        assert(front + seq![last] =~= ws);
    }
}


/// Whether a text is white space alone.
pub open spec fn all_white(s: Seq<char>) -> bool {
    forall|i: int| 0 <= i < s.len() ==> chars::white_space(#[trigger] s[i])
}

proof fn lemma_trim_start_blank(s: Seq<char>)
    ensures
        trim_start(s).len() == 0 <==> all_white(s),
        trim_start(s).len() > 0 ==> !chars::white_space(trim_start(s)[0]),
        trim_start(s).len() <= s.len(),
        s.skip(s.len() - trim_start(s).len()) == trim_start(s),
        all_white(s.take(s.len() - trim_start(s).len())),
    decreases s.len(),
{
    if s.len() > 0 && chars::white_space(s[0]) {
        let rest = s.skip(1);
        lemma_trim_start_blank(rest);
        let n = s.len() - trim_start(s).len();
        assert(s.skip(n) =~= rest.skip(n - 1));
        assert forall|i: int| 0 <= i < n implies chars::white_space(#[trigger] s.take(n)[i]) by {
            if i > 0 {
                assert(rest.take(n - 1)[i - 1] == s[i]);
            }
        }
        if all_white(rest) {
            assert forall|i: int| 0 <= i < s.len() implies chars::white_space(#[trigger] s[i]) by {
                if i > 0 {
                    assert(rest[i - 1] == s[i]);
                }
            }
        }
        if all_white(s) {
            assert forall|i: int| 0 <= i < rest.len() implies chars::white_space(
                #[trigger] rest[i],
            ) by {
                assert(s[i + 1] == rest[i]);
            }
        }
    } else {
        assert(s.skip(0) =~= s);
        if s.len() > 0 {
            assert(!chars::white_space(s[0]));
        }
    }
}

pub proof fn lemma_trim_end_blank(s: Seq<char>)
    ensures
        trim_end(s).len() == 0 <==> all_white(s),
        trim_end(s).len() > 0 ==> !chars::white_space(trim_end(s).last()),
        trim_end(s).len() <= s.len(),
        s.take(trim_end(s).len() as int) == trim_end(s),
        all_white(s.skip(trim_end(s).len() as int)),
    decreases s.len(),
{
    if s.len() > 0 && chars::white_space(s.last()) {
        let rest = s.drop_last();
        lemma_trim_end_blank(rest);
        let n = trim_end(s).len() as int;
        assert(s.take(n) =~= rest.take(n));
        assert forall|i: int| 0 <= i < s.len() - n implies chars::white_space(
            #[trigger] s.skip(n)[i],
        ) by {
            if i < rest.len() - n {
                assert(rest.skip(n)[i] == s.skip(n)[i]);
            }
        }
        if all_white(rest) {
            assert forall|i: int| 0 <= i < s.len() implies chars::white_space(#[trigger] s[i]) by {
                if i < rest.len() {
                    assert(rest[i] == s[i]);
                }
            }
        }
        if all_white(s) {
            assert forall|i: int| 0 <= i < rest.len() implies chars::white_space(
                #[trigger] rest[i],
            ) by {
                assert(s[i] == rest[i]);
            }
        }
    } else {
        assert(s.take(s.len() as int) =~= s);
        if s.len() > 0 {
            assert(!chars::white_space(s[s.len() - 1]));
        }
    }
}

/// Trimming takes the white space from both ends of a text and nothing else: what is left neither
/// starts nor ends with white space, it stood in the text with white space alone around it, and
/// nothing is left of white space alone.
pub proof fn law_trim(s: Seq<char>)
    ensures
        trim(s).len() == 0 <==> all_white(s),
        trim(s).len() > 0 ==> !chars::white_space(trim(s)[0]) && !chars::white_space(
            trim(s).last(),
        ),
        exists|i: int|
            #![trigger s.subrange(i, i + trim(s).len())]
            0 <= i && i + trim(s).len() <= s.len() && s.subrange(i, i + trim(s).len()) == trim(s)
                && all_white(s.take(i)) && all_white(s.skip(i + trim(s).len())),
{
    let front = trim_start(s);
    let res = trim(s);
    lemma_trim_start_blank(s);
    lemma_trim_end_blank(front);
    let i = s.len() - front.len();
    let n = res.len() as int;
    assert(s.subrange(i, i + n) =~= s.skip(i).take(n));
    assert(s.skip(i + n) =~= s.skip(i).skip(n));
    if n > 0 {
        assert(res[0] == front[0]);
    }
    if all_white(s) {
    } else if front.len() > 0 && all_white(front) {
        assert(chars::white_space(front[0]));
    }
}

/// Whether a text is made of parts with a separator between them: part `i` stands at `at[i]`.
pub open spec fn laid_out(
    whole: Seq<char>,
    parts: Seq<Seq<char>>,
    sep: Seq<char>,
    at: Seq<int>,
) -> bool {
    &&& at.len() == parts.len()
    &&& parts.len() > 0 ==> at[0] == 0 && at.last() + parts.last().len() == whole.len()
    &&& parts.len() == 0 ==> whole.len() == 0
    &&& forall|i: int|
        0 <= i < parts.len() ==> 0 <= #[trigger] at[i] && at[i] + parts[i].len() <= whole.len()
            && whole.subrange(at[i], at[i] + parts[i].len()) == parts[i]
    &&& forall|i: int| 0 <= i < parts.len() - 1 ==> #[trigger] set_apart(whole, parts, sep, at, i)
}

/// Whether part `i + 1` stands behind part `i`, with the separator between them.
pub open spec fn set_apart(
    whole: Seq<char>,
    parts: Seq<Seq<char>>,
    sep: Seq<char>,
    at: Seq<int>,
    i: int,
) -> bool {
    at[i + 1] == at[i] + parts[i].len() + sep.len() && whole.subrange(
        at[i] + parts[i].len(),
        at[i + 1],
    ) == sep
}

/// Joining parts puts all of them behind each other, in order, with the separator between any two
/// and nothing else.
pub proof fn law_join(parts: Seq<Seq<char>>, sep: Seq<char>)
    ensures
        exists|at: Seq<int>| #[trigger] laid_out(join(parts, sep), parts, sep, at),
    decreases parts.len(),
{
    let whole = join(parts, sep);
    if parts.len() == 0 {
        assert(laid_out(whole, parts, sep, Seq::empty()));
    } else if parts.len() == 1 {
        assert(whole.subrange(0, whole.len() as int) =~= whole);
        assert(laid_out(whole, parts, sep, seq![0int]));
    } else {
        let front = parts.drop_last();
        let head = join(front, sep);
        law_join(front, sep);
        let before = choose|at: Seq<int>| #[trigger] laid_out(head, front, sep, at);
        let last = parts.last();
        let start = (head.len() + sep.len()) as int;
        let at = before.push(start);
        assert(whole =~= head + sep + last);
        assert forall|i: int| 0 <= i < parts.len() implies 0 <= #[trigger] at[i] && at[i]
            + parts[i].len() <= whole.len() && whole.subrange(at[i], at[i] + parts[i].len())
            == parts[i] by {
            if i < front.len() {
                assert(before[i] + front[i].len() <= head.len());
                assert(whole.subrange(at[i], at[i] + parts[i].len()) =~= head.subrange(
                    before[i],
                    before[i] + front[i].len(),
                ));
            } else {
                assert(whole.subrange(start, start + last.len()) =~= last);
            }
        }
        assert forall|i: int| 0 <= i < parts.len() - 1 implies #[trigger] set_apart(
            whole,
            parts,
            sep,
            at,
            i,
        ) by {
            if i < front.len() - 1 {
                assert(set_apart(head, front, sep, before, i));
                assert(before[i + 1] == before[i] + front[i].len() + sep.len());
                assert(0 <= before[i + 1]);
                assert(whole.subrange(at[i] + parts[i].len(), at[i + 1]) =~= head.subrange(
                    before[i] + front[i].len(),
                    before[i + 1],
                ));
            } else {
                assert(before[i] == before.last());
                assert(front[i] == front.last());
                assert(whole.subrange(head.len() as int, start) =~= sep);
            }
        }
        assert(laid_out(whole, parts, sep, at));
    }
}

/// Whether a run of a text is a whole one: a separator or an end of the text stands on both sides.
pub open spec fn is_run(s: Seq<char>, i: int, j: int, sep: Separator) -> bool {
    &&& 0 <= i < j <= s.len()
    &&& unsplit(s.subrange(i, j), sep)
    &&& i == 0 || sep.at(s[i - 1])
    &&& j == s.len() || sep.at(s[j])
}

proof fn lemma_run_is_piece(s: Seq<char>, i: int, j: int, sep: Separator)
    requires
        is_run(s, i, j, sep),
    ensures
        split_on(s, sep).contains(s.subrange(i, j)),
{
    let run = s.subrange(i, j);
    let tail = s.skip(i);
    if j == s.len() {
        assert(tail =~= run);
        lemma_split_unsplit(tail, sep);
    } else {
        assert(tail =~= run.push(s[j]) + s.skip(j + 1));
        lemma_split_concat(run, s[j], s.skip(j + 1), sep);
        lemma_split_unsplit(run, sep);
        assert(split_on(run, sep)[0] == run);
    }
    assert(split_on(tail, sep).len() > 0 && split_on(tail, sep)[0] == run);
    if i > 0 {
        assert(s =~= s.take(i - 1).push(s[i - 1]) + tail);
        lemma_split_concat(s.take(i - 1), s[i - 1], tail, sep);
        let front = split_on(s.take(i - 1), sep);
        assert(split_on(s, sep)[front.len() as int] == run);
    } else {
        assert(tail =~= s);
    }
}

/// The terms of a text are its whole runs of letters and numbers in lower case that are long
/// enough: each of those is a term, and every term is one of them.
pub proof fn law_terms(s: Seq<char>, min_bytes: nat)
    ensures
        forall|k: int|
            0 <= k < terms(s, min_bytes).len() ==> unsplit(
                #[trigger] terms(s, min_bytes)[k],
                Separator::NotAlphanumeric,
            ) && byte_len(terms(s, min_bytes)[k]) >= min_bytes,
        forall|i: int, j: int| #[trigger]
            is_run(lowercase(s), i, j, Separator::NotAlphanumeric) && byte_len(
                lowercase(s).subrange(i, j),
            ) >= min_bytes ==> terms(s, min_bytes).contains(lowercase(s).subrange(i, j)),
{
    let pieces = split_on(lowercase(s), Separator::NotAlphanumeric);
    let keep = |p: Seq<char>| byte_len(p) >= min_bytes;
    let kept = terms(s, min_bytes);
    law_split_pieces(lowercase(s), Separator::NotAlphanumeric);
    assert forall|k: int| 0 <= k < kept.len() implies unsplit(
        #[trigger] kept[k],
        Separator::NotAlphanumeric,
    ) && byte_len(kept[k]) >= min_bytes by {
        pieces.lemma_filter_contains_rev(keep, kept[k]);
        pieces.lemma_filter_pred(keep, k);
    }
    assert forall|i: int, j: int| #[trigger]
        is_run(lowercase(s), i, j, Separator::NotAlphanumeric) && byte_len(
            lowercase(s).subrange(i, j),
        ) >= min_bytes implies kept.contains(lowercase(s).subrange(i, j)) by {
        lemma_run_is_piece(lowercase(s), i, j, Separator::NotAlphanumeric);
        let run = lowercase(s).subrange(i, j);
        let k = choose|k: int| 0 <= k < pieces.len() && pieces[k] == run;
        pieces.lemma_filter_contains(keep, k);
    }
}


/// Whether pieces are what a text is cut into: piece `i` stands at `at[i]`, and one separator
/// stands between any two.
pub open spec fn cut_at(s: Seq<char>, pieces: Seq<Seq<char>>, sep: Separator, at: Seq<int>) -> bool {
    &&& at.len() == pieces.len()
    &&& pieces.len() > 0
    &&& at[0] == 0
    &&& at.last() + pieces.last().len() == s.len()
    &&& forall|i: int|
        0 <= i < pieces.len() ==> 0 <= #[trigger] at[i] && at[i] + pieces[i].len() <= s.len()
            && s.subrange(at[i], at[i] + pieces[i].len()) == pieces[i]
    &&& forall|i: int| 0 <= i < pieces.len() - 1 ==> #[trigger] one_apart(s, pieces, sep, at, i)
}

/// Whether piece `i + 1` stands behind piece `i`, with one separator between them.
pub open spec fn one_apart(
    s: Seq<char>,
    pieces: Seq<Seq<char>>,
    sep: Separator,
    at: Seq<int>,
    i: int,
) -> bool {
    at[i + 1] == at[i] + pieces[i].len() + 1 && sep.at(s[at[i] + pieces[i].len()])
}

/// Splitting loses nothing but the separators, and keeps the order.
pub proof fn law_split_is_lossless(s: Seq<char>, sep: Separator)
    ensures
        exists|at: Seq<int>| #[trigger] cut_at(s, split_on(s, sep), sep, at),
    decreases s.len(),
{
    let pieces = split_on(s, sep);
    if s.len() == 0 {
        assert(s.subrange(0, 0) =~= pieces[0]);
        assert(cut_at(s, pieces, sep, seq![0int]));
    } else {
        let front = s.drop_last();
        let fewer = split_on(front, sep);
        law_split_is_lossless(front, sep);
        let before = choose|at: Seq<int>| #[trigger] cut_at(front, fewer, sep, at);
        let n = fewer.len() - 1;
        assert(before.last() == before[n] && fewer.last() == fewer[n]);
        if sep.at(s.last()) {
            let at = before.push(s.len() as int);
            assert(pieces =~= fewer.push(Seq::empty()));
            assert forall|i: int| 0 <= i < pieces.len() implies 0 <= #[trigger] at[i] && at[i]
                + pieces[i].len() <= s.len() && s.subrange(at[i], at[i] + pieces[i].len())
                == pieces[i] by {
                if i <= n {
                    assert(0 <= before[i]);
                    assert(s.subrange(at[i], at[i] + pieces[i].len()) =~= front.subrange(
                        before[i],
                        before[i] + fewer[i].len(),
                    ));
                } else {
                    assert(s.subrange(at[i], at[i]) =~= Seq::empty());
                }
            }
            assert forall|i: int| 0 <= i < pieces.len() - 1 implies #[trigger] one_apart(
                s,
                pieces,
                sep,
                at,
                i,
            ) by {
                if i < n {
                    assert(one_apart(front, fewer, sep, before, i));
                    assert(before[i + 1] == before[i] + fewer[i].len() + 1);
                    assert(0 <= before[i] && 0 <= before[i + 1]);
                    assert(front[before[i] + fewer[i].len()] == s[at[i] + pieces[i].len()]);
                }
            }
            assert(cut_at(s, pieces, sep, at));
        } else {
            assert(pieces =~= fewer.update(n, fewer[n].push(s.last())));
            assert forall|i: int| 0 <= i < pieces.len() implies 0 <= #[trigger] before[i]
                && before[i] + pieces[i].len() <= s.len() && s.subrange(
                before[i],
                before[i] + pieces[i].len(),
            ) == pieces[i] by {
                if i < n {
                    assert(s.subrange(before[i], before[i] + pieces[i].len()) =~= front.subrange(
                        before[i],
                        before[i] + fewer[i].len(),
                    ));
                } else {
                    assert(front.subrange(before[n], before[n] + fewer[n].len()) == fewer[n]);
                    assert(s.subrange(before[n], s.len() as int) =~= fewer[n].push(s.last()));
                }
            }
            assert forall|i: int| 0 <= i < pieces.len() - 1 implies #[trigger] one_apart(
                s,
                pieces,
                sep,
                before,
                i,
            ) by {
                assert(one_apart(front, fewer, sep, before, i));
                assert(before[i + 1] == before[i] + fewer[i].len() + 1);
                assert(0 <= before[i] && 0 <= before[i + 1]);
                assert(front[before[i] + fewer[i].len()] == s[before[i] + pieces[i].len()]);
            }
            assert(cut_at(s, pieces, sep, before));
        }
    }
}


/// A text comes before every text that starts with it, and where two texts differ the first
/// character that differs decides.
pub proof fn law_text_order_is_by_first_difference(a: Seq<char>, b: Seq<char>, n: int)
    requires
        0 <= n <= a.len(),
        n <= b.len(),
        forall|i: int| 0 <= i < n ==> a[i] == b[i],
    ensures
        n == a.len() ==> text_le(a, b),
        n < a.len() && n == b.len() ==> !text_le(a, b),
        n < a.len() && n < b.len() && a[n] != b[n] ==> text_le(a, b) == (a[n] < b[n]),
    decreases n,
{
    if n > 0 {
        let x = a.skip(1);
        let y = b.skip(1);
        assert forall|i: int| 0 <= i < n - 1 implies x[i] == y[i] by {
            assert(a[i + 1] == b[i + 1]);
        }
        law_text_order_is_by_first_difference(x, y, n - 1);
    }
}

/// The words of a text are its runs without white space, all of them and in order: the pieces that
/// are not empty when it is cut at its white space.
pub proof fn law_words_are_the_runs(s: Seq<char>)
    ensures
        exists|pieces: Seq<Seq<char>>, at: Seq<int>| #[trigger]
            cut_at(s, pieces, Separator::Space, at) && words(s) == pieces.filter(
                |p: Seq<char>| p.len() > 0,
            ),
        forall|i: int, j: int| #[trigger]
            is_run(s, i, j, Separator::Space) ==> words(s).contains(s.subrange(i, j)),
        forall|c: char| #[trigger] Separator::Space.at(c) == chars::white_space(c),
{
    let pieces = split_on(s, Separator::Space);
    law_split_is_lossless(s, Separator::Space);
    let at = choose|at: Seq<int>| #[trigger] cut_at(s, pieces, Separator::Space, at);
    let keep = |p: Seq<char>| p.len() > 0;
    assert(words(s) == pieces.filter(keep));
    assert(cut_at(s, pieces, Separator::Space, at));
    assert forall|i: int, j: int| #[trigger] is_run(s, i, j, Separator::Space) implies words(
        s,
    ).contains(s.subrange(i, j)) by {
        lemma_run_is_piece(s, i, j, Separator::Space);
        let k = choose|k: int| 0 <= k < pieces.len() && pieces[k] == s.subrange(i, j);
        pieces.lemma_filter_contains(keep, k);
    }
}

/// Every carriage return with its line feed becomes a line feed, and nothing else changes.
pub proof fn law_unix_lines(a: Seq<char>, b: Seq<char>)
    ensures
        unix_lines(a + seq!['\r', '\n'] + b) == unix_lines(a) + seq!['\n'] + unix_lines(b),
        !a.contains('\r') ==> unix_lines(a) == a,
    decreases a.len() + b.len(),
{
    let whole = a + seq!['\r', '\n'] + b;
    if b.len() == 0 {
        assert(whole.drop_last().drop_last() =~= a);
        assert(unix_lines(whole) =~= unix_lines(a).push('\n'));
        assert(unix_lines(b) =~= Seq::<char>::empty());
        assert(unix_lines(a) + seq!['\n'] + unix_lines(b) =~= unix_lines(a).push('\n'));
    } else if b.len() >= 2 && b[b.len() - 2] == '\r' && b.last() == '\n' {
        let front = b.drop_last().drop_last();
        law_unix_lines(a, front);
        assert(whole.drop_last().drop_last() =~= a + seq!['\r', '\n'] + front);
        assert(unix_lines(whole) =~= unix_lines(a) + seq!['\n'] + unix_lines(b));
    } else {
        let front = b.drop_last();
        law_unix_lines(a, front);
        assert(whole.drop_last() =~= a + seq!['\r', '\n'] + front);
        assert(whole.last() == b.last());
        if b.len() == 1 {
            assert(whole[whole.len() - 2] == '\n');
        } else {
            assert(whole[whole.len() - 2] == b[b.len() - 2]);
        }
        assert(unix_lines(whole) =~= unix_lines(a) + seq!['\n'] + unix_lines(b));
    }
    if !a.contains('\r') && a.len() > 0 {
        let front = a.drop_last();
        assert(!front.contains('\r')) by {
            if front.contains('\r') {
                let i = choose|i: int| 0 <= i < front.len() && front[i] == '\r';
                assert(a[i] == '\r');
            }
        }
        lemma_no_returns(front);
        if a.len() >= 2 {
            assert(a[a.len() - 2] != '\r') by {
                assert(a.contains(a[a.len() - 2]));
            }
        }
        assert(unix_lines(a) =~= a);
    }
}

proof fn lemma_no_returns(a: Seq<char>)
    requires
        !a.contains('\r'),
    ensures
        unix_lines(a) == a,
    decreases a.len(),
{
    if a.len() > 0 {
        let front = a.drop_last();
        assert(!front.contains('\r')) by {
            if front.contains('\r') {
                let i = choose|i: int| 0 <= i < front.len() && front[i] == '\r';
                assert(a[i] == '\r');
            }
        }
        lemma_no_returns(front);
        if a.len() >= 2 {
            assert(a[a.len() - 2] != '\r') by {
                assert(a.contains(a[a.len() - 2]));
            }
        }
        assert(unix_lines(a) =~= a);
    }
}

} // verus!
