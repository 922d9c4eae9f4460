//! Text handling shared by the rule parsers, the planner and the mount
//! argument builders: comparison, ordering, splitting into lines and words,
//! decimal numbers and path joining, all stated over sequences of characters.

use vstd::prelude::*;

verus! {

/// The views of a list of strings, in order.
pub open spec fn texts(v: Seq<String>) -> Seq<Seq<char>> {
    v.map_values(|s: String| s@)
}

/// Length of the UTF-8 encoding of `s`, as `str::len` reports it.
pub open spec fn utf8_len(s: Seq<char>) -> nat {
    (vstd::utf8::encode_utf8(s).len() as usize) as nat
}

/// Number of bytes that `s` occupies.
pub fn byte_len(s: &str) -> (n: usize)
    ensures
        n == utf8_len(s@),
{
    s.len()
}

/// The characters of `s`.
pub fn chars_of(s: &str) -> (out: Vec<char>)
    ensures
        out@ == s@,
{
    let mut out: Vec<char> = Vec::new();
    for c in it: s.chars()
        invariant
            it.seq() == s@,
            out@ == s@.take(it.index()),
    {
        out.push(c);
        assert(s@.take(it.index() + 1) =~= s@.take(it.index()).push(c));
    }
    assert(s@.take(s@.len() as int) =~= s@);
    out
}

/// Whether two strings hold the same characters.
pub fn same_text(a: &str, b: &str) -> (r: bool)
    ensures
        r == (a@ == b@),
{
    let x: String = a.to_owned();
    let y: String = b.to_owned();
    x == y
}

/// Lexicographic order on character sequences, by code point. A proper prefix
/// comes before every sequence that extends it.
pub open spec fn text_before(a: Seq<char>, b: Seq<char>) -> bool
    decreases a.len(),
{
    if b.len() == 0 {
        false
    } else if a.len() == 0 {
        true
    } else if a[0] != b[0] {
        a[0] < b[0]
    } else {
        text_before(a.skip(1), b.skip(1))
    }
}

/// `a` and `b` agree on their first `n` characters.
pub open spec fn agree_upto(a: Seq<char>, b: Seq<char>, n: int) -> bool {
    &&& 0 <= n <= a.len()
    &&& n <= b.len()
    &&& a.take(n) == b.take(n)
}

/// After a common prefix of length `n` the order is that of the remainders.
pub proof fn lemma_text_before_skip(a: Seq<char>, b: Seq<char>, n: int)
    requires
        agree_upto(a, b, n),
    ensures
        text_before(a, b) == text_before(a.skip(n), b.skip(n)),
    decreases n,
{
    if n == 0 {
        assert(a.skip(0) =~= a);
        assert(b.skip(0) =~= b);
    } else {
        assert(a[0] == a.take(n)[0]);
        assert(b[0] == b.take(n)[0]);
        assert(a.skip(1).take(n - 1) =~= a.take(n).skip(1));
        assert(b.skip(1).take(n - 1) =~= b.take(n).skip(1));
        lemma_text_before_skip(a.skip(1), b.skip(1), n - 1);
        assert(a.skip(1).skip(n - 1) =~= a.skip(n));
        assert(b.skip(1).skip(n - 1) =~= b.skip(n));
    }
}

/// No sequence comes before itself.
pub proof fn lemma_text_before_irreflexive(a: Seq<char>)
    ensures
        !text_before(a, a),
    decreases a.len(),
{
    if a.len() > 0 {
        lemma_text_before_irreflexive(a.skip(1));
    }
}

/// The order is transitive.
pub proof fn lemma_text_before_transitive(a: Seq<char>, b: Seq<char>, c: Seq<char>)
    requires
        text_before(a, b),
        text_before(b, c),
    ensures
        text_before(a, c),
    decreases a.len(),
{
    if a.len() > 0 && a[0] == b[0] && b[0] == c[0] {
        lemma_text_before_transitive(a.skip(1), b.skip(1), c.skip(1));
    }
}

/// Two different sequences are ordered one way or the other.
pub proof fn lemma_text_before_total(a: Seq<char>, b: Seq<char>)
    ensures
        text_before(a, b) || text_before(b, a) || a == b,
    decreases a.len(),
{
    if a.len() == 0 || b.len() == 0 {
        if a.len() == 0 && b.len() == 0 {
            assert(a =~= b);
        }
    } else if a[0] == b[0] {
        lemma_text_before_total(a.skip(1), b.skip(1));
        if a.skip(1) == b.skip(1) {
            assert(a =~= seq![a[0]] + a.skip(1));
            assert(b =~= seq![b[0]] + b.skip(1));
        }
    }
}

/// Whether `a` sorts strictly before `b`.
pub fn sorts_before(a: &str, b: &str) -> (r: bool)
    ensures
        r == text_before(a@, b@),
{
    let x: Vec<char> = chars_of(a);
    let y: Vec<char> = chars_of(b);
    let mut i: usize = 0;
    assert(a@.take(0) =~= b@.take(0));
    while i < x.len() && i < y.len()
        invariant
            x@ == a@,
            y@ == b@,
            agree_upto(a@, b@, i as int),
        decreases x.len() - i,
    {
        if x[i] != y[i] {
            proof {
                lemma_text_before_skip(a@, b@, i as int);
                let sa = a@.skip(i as int);
                let sb = b@.skip(i as int);
                assert(sa[0] == x@[i as int]);
                assert(sb[0] == y@[i as int]);
            }
            return x[i] < y[i];
        }
        assert(a@.take(i + 1) =~= a@.take(i as int).push(a@[i as int]));
        assert(b@.take(i + 1) =~= b@.take(i as int).push(b@[i as int]));
        i = i + 1;
    }
    proof {
        lemma_text_before_skip(a@, b@, i as int);
    }
    i < y.len()
}

/// White space in the Unicode sense: the characters that separate words.
pub open spec fn is_space(c: char) -> bool {
    ||| ('\u{9}' <= c && c <= '\u{d}')
    ||| c == ' '
    ||| c == '\u{85}'
    ||| c == '\u{a0}'
    ||| c == '\u{1680}'
    ||| ('\u{2000}' <= c && c <= '\u{200a}')
    ||| c == '\u{2028}'
    ||| c == '\u{2029}'
    ||| c == '\u{202f}'
    ||| c == '\u{205f}'
    ||| c == '\u{3000}'
}

/// Whether `c` separates words.
pub fn separates_words(c: char) -> (r: bool)
    ensures
        r == is_space(c),
{
    ('\u{9}' <= c && c <= '\u{d}') || c == ' ' || c == '\u{85}' || c == '\u{a0}' || c
        == '\u{1680}' || ('\u{2000}' <= c && c <= '\u{200a}') || c == '\u{2028}' || c
        == '\u{2029}' || c == '\u{202f}' || c == '\u{205f}' || c == '\u{3000}'
}

/// The pieces of `s` between line feeds. A text of n line feeds has n + 1
/// lines, the last of which is empty when the text ends in a line feed.
pub open spec fn lines_of(s: Seq<char>) -> Seq<Seq<char>>
    decreases s.len(),
{
    if s.len() == 0 {
        seq![Seq::<char>::empty()]
    } else {
        let before = lines_of(s.drop_last());
        if s.last() == '\n' {
            before.push(Seq::<char>::empty())
        } else {
            before.drop_last().push(before.last().push(s.last()))
        }
    }
}

/// There is always at least one line.
pub proof fn lemma_lines_nonempty(s: Seq<char>)
    ensures
        lines_of(s).len() >= 1,
    decreases s.len(),
{
    if s.len() > 0 {
        lemma_lines_nonempty(s.drop_last());
    }
}

/// No line holds a line feed.
pub proof fn lemma_lines_hold_no_line_feed(s: Seq<char>, k: int, j: int)
    requires
        0 <= k < lines_of(s).len(),
        0 <= j < lines_of(s)[k].len(),
    ensures
        lines_of(s)[k][j] != '\n',
    decreases s.len(),
{
    if s.len() > 0 {
        let before = lines_of(s.drop_last());
        lemma_lines_nonempty(s.drop_last());
        if s.last() == '\n' {
            lemma_lines_hold_no_line_feed(s.drop_last(), k, j);
        } else if k < before.len() - 1 {
            lemma_lines_hold_no_line_feed(s.drop_last(), k, j);
        } else if j < before.last().len() {
            lemma_lines_hold_no_line_feed(s.drop_last(), k, j);
        }
    }
}

/// The lines written one after the other, with a line feed between each two.
pub open spec fn joined_lines(lines: Seq<Seq<char>>) -> Seq<char>
    decreases lines.len(),
{
    if lines.len() == 0 {
        Seq::empty()
    } else if lines.len() == 1 {
        lines[0]
    } else {
        joined_lines(lines.drop_last()) + seq!['\n'] + lines.last()
    }
}

/// Nothing of a text is lost in its lines: joined again they are the text.
pub proof fn lemma_lines_join_back(s: Seq<char>)
    ensures
        joined_lines(lines_of(s)) == s,
    decreases s.len(),
{
    if s.len() == 0 {
        assert(joined_lines(lines_of(s)) =~= s);
    } else {
        let init = s.drop_last();
        let before = lines_of(init);
        lemma_lines_nonempty(init);
        lemma_lines_join_back(init);
        assert(s =~= init.push(s.last()));
        if s.last() == '\n' {
            let after = before.push(Seq::<char>::empty());
            assert(after.drop_last() =~= before);
            assert(joined_lines(after) =~= init + seq!['\n']);
        } else {
            let grown = before.last().push(s.last());
            let after = before.drop_last().push(grown);
            if before.len() == 1 {
                assert(joined_lines(before) == before[0]);
                assert(after[0] == grown);
                assert(joined_lines(after) =~= init.push(s.last()));
            } else {
                assert(after.drop_last() =~= before.drop_last());
                assert(joined_lines(after) =~= joined_lines(before.drop_last()) + seq!['\n']
                    + grown);
                assert(joined_lines(before) =~= joined_lines(before.drop_last()) + seq!['\n']
                    + before.last());
                assert(joined_lines(after) =~= joined_lines(before).push(s.last()));
            }
        }
    }
}

/// Splits `s` at every line feed.
pub fn split_lines(s: &str) -> (out: Vec<String>)
    ensures
        texts(out@) == lines_of(s@),
{
    let cs: Vec<char> = chars_of(s);
    let mut out: Vec<String> = Vec::new();
    let mut start: usize = 0;
    let mut i: usize = 0;
    assert(s@.take(0) =~= Seq::<char>::empty());
    assert(s@.subrange(0, 0) =~= Seq::<char>::empty());
    assert(texts(out@).push(s@.subrange(0, 0)) =~= lines_of(s@.take(0)));
    while i < cs.len()
        invariant
            cs@ == s@,
            start <= i <= cs.len(),
            texts(out@).push(s@.subrange(start as int, i as int)) == lines_of(s@.take(i as int)),
        decreases cs.len() - i,
    {
        let ghost prefix = s@.take(i + 1);
        assert(prefix.drop_last() =~= s@.take(i as int));
        assert(prefix.last() == s@[i as int]);
        let ghost before = lines_of(s@.take(i as int));
        assert(before.last() == s@.subrange(start as int, i as int));
        assert(before.drop_last() =~= texts(out@));
        if cs[i] == '\n' {
            let piece: String = String::from_str(s.substring_char(start, i));
            let ghost old_out = out@;
            out.push(piece);
            assert(texts(out@) =~= texts(old_out).push(piece@));
            start = i + 1;
            assert(s@.subrange(start as int, start as int) =~= Seq::<char>::empty());
        } else {
            assert(s@.subrange(start as int, i + 1) =~= s@.subrange(start as int, i as int).push(
                s@[i as int],
            ));
        }
        i = i + 1;
    }
    assert(s@.take(i as int) =~= s@);
    let piece: String = String::from_str(s.substring_char(start, i));
    let ghost old_out = out@;
    out.push(piece);
    assert(texts(out@) =~= texts(old_out).push(piece@));
    out
}

/// What separates the fields of a text.
#[derive(Debug, Clone, Copy, PartialEq, Eq, Structural)]
pub enum Delimiter {
    /// Any white space.
    WhiteSpace,
    /// The slash of a path.
    Slash,
}

/// Whether `c` separates fields.
pub open spec fn delimits(d: Delimiter, c: char) -> bool {
    match d {
        Delimiter::WhiteSpace => is_space(c),
        Delimiter::Slash => c == '/',
    }
}

/// The fields of `s`: its maximal runs of characters that do not separate,
/// in order. Separators at the ends and runs of separators give no empty
/// field.
pub open spec fn fields_of(s: Seq<char>, d: Delimiter) -> Seq<Seq<char>>
    decreases s.len(),
{
    if s.len() == 0 {
        Seq::<Seq<char>>::empty()
    } else {
        let before = fields_of(s.drop_last(), d);
        if delimits(d, s.last()) {
            before
        } else if s.len() >= 2 && !delimits(d, s[s.len() - 2]) && before.len() > 0 {
            before.drop_last().push(before.last().push(s.last()))
        } else {
            before.push(seq![s.last()])
        }
    }
}

/// The words of `s`: its fields between white space.
pub open spec fn words_of(s: Seq<char>) -> Seq<Seq<char>> {
    fields_of(s, Delimiter::WhiteSpace)
}

/// The components of the path `s`: its fields between slashes.
pub open spec fn components_of(s: Seq<char>) -> Seq<Seq<char>> {
    fields_of(s, Delimiter::Slash)
}

/// Every field is non-empty and free of separators.
pub proof fn lemma_fields_are_solid(s: Seq<char>, d: Delimiter, k: int)
    requires
        0 <= k < fields_of(s, d).len(),
    ensures
        fields_of(s, d)[k].len() > 0,
        forall|j: int|
            0 <= j < fields_of(s, d)[k].len() ==> !delimits(d, #[trigger] fields_of(s, d)[k][j]),
    decreases s.len(),
{
    if s.len() > 0 {
        let before = fields_of(s.drop_last(), d);
        if delimits(d, s.last()) {
            lemma_fields_are_solid(s.drop_last(), d, k);
        } else if s.len() >= 2 && !delimits(d, s[s.len() - 2]) && before.len() > 0 {
            if k < before.len() - 1 {
                lemma_fields_are_solid(s.drop_last(), d, k);
            } else {
                lemma_fields_are_solid(s.drop_last(), d, before.len() - 1);
            }
        } else {
            if k < before.len() {
                lemma_fields_are_solid(s.drop_last(), d, k);
            }
        }
    }
}

/// Whether `c` separates fields.
pub fn is_delimiter(d: Delimiter, c: char) -> (r: bool)
    ensures
        r == delimits(d, c),
{
    match d {
        Delimiter::WhiteSpace => separates_words(c),
        Delimiter::Slash => c == '/',
    }
}

/// Splits `s` into its fields.
pub fn split_fields(s: &str, d: Delimiter) -> (out: Vec<String>)
    ensures
        texts(out@) == fields_of(s@, d),
{
    let cs: Vec<char> = chars_of(s);
    let mut out: Vec<String> = Vec::new();
    let mut start: usize = 0;
    let mut inside: bool = false;
    let mut i: usize = 0;
    assert(s@.take(0) =~= Seq::<char>::empty());
    assert(texts(out@) =~= fields_of(s@.take(0), d));
    while i < cs.len()
        invariant
            cs@ == s@,
            start <= i <= cs.len(),
            inside ==> start < i,
            inside == (i > 0 && !delimits(d, s@[i - 1])),
            !inside ==> texts(out@) == fields_of(s@.take(i as int), d),
            inside ==> texts(out@).push(s@.subrange(start as int, i as int)) == fields_of(
                s@.take(i as int),
                d,
            ),
        decreases cs.len() - i,
    {
        let ghost prefix = s@.take(i + 1);
        assert(prefix.drop_last() =~= s@.take(i as int));
        assert(prefix.last() == s@[i as int]);
        if i > 0 {
            assert(prefix[prefix.len() - 2] == s@[i - 1]);
        }
        let c: char = cs[i];
        if is_delimiter(d, c) {
            if inside {
                let piece: String = String::from_str(s.substring_char(start, i));
                let ghost old_out = out@;
                out.push(piece);
                assert(texts(out@) =~= texts(old_out).push(piece@));
                inside = false;
            }
        } else {
            if inside {
                let ghost before = fields_of(s@.take(i as int), d);
                assert(before.last() == s@.subrange(start as int, i as int));
                assert(before.drop_last() =~= texts(out@));
                assert(s@.subrange(start as int, i + 1) =~= s@.subrange(start as int, i as int).push(
                    s@[i as int],
                ));
            } else {
                start = i;
                inside = true;
                assert(s@.subrange(i as int, i + 1) =~= seq![s@[i as int]]);
            }
        }
        i = i + 1;
    }
    assert(s@.take(i as int) =~= s@);
    if inside {
        let piece: String = String::from_str(s.substring_char(start, i));
        let ghost old_out = out@;
        out.push(piece);
        assert(texts(out@) =~= texts(old_out).push(piece@));
    }
    out
}

/// Splits `s` into its words.
pub fn split_words(s: &str) -> (out: Vec<String>)
    ensures
        texts(out@) == words_of(s@),
{
    split_fields(s, Delimiter::WhiteSpace)
}

/// Splits the path `s` into its components.
pub fn split_components(s: &str) -> (out: Vec<String>)
    ensures
        texts(out@) == components_of(s@),
{
    split_fields(s, Delimiter::Slash)
}

/// `s` without the run of `c` that it starts with.
pub open spec fn without_leading(s: Seq<char>, c: char) -> Seq<char>
    decreases s.len(),
{
    if s.len() > 0 && s[0] == c {
        without_leading(s.skip(1), c)
    } else {
        s
    }
}

/// Dropping a run of `n` leading `c`s that ends at another character, or at
/// the end, is what `without_leading` does.
pub proof fn lemma_without_leading(s: Seq<char>, c: char, n: int)
    requires
        0 <= n <= s.len(),
        forall|j: int| 0 <= j < n ==> s[j] == c,
        n < s.len() ==> s[n] != c,
    ensures
        without_leading(s, c) == s.skip(n),
    decreases n,
{
    if n == 0 {
        assert(s.skip(0) =~= s);
    } else {
        let t = s.skip(1);
        assert forall|j: int| 0 <= j < n - 1 implies t[j] == c by {
            assert(t[j] == s[j + 1]);
        }
        lemma_without_leading(t, c, n - 1);
        assert(t.skip(n - 1) =~= s.skip(n));
    }
}

/// What is left of a sequence after its leading `c`s does not start with `c`,
/// and stripping it again changes nothing.
pub proof fn lemma_without_leading_idempotent(s: Seq<char>, c: char)
    ensures
        without_leading(s, c).len() > 0 ==> without_leading(s, c)[0] != c,
        without_leading(without_leading(s, c), c) == without_leading(s, c),
    decreases s.len(),
{
    if s.len() > 0 && s[0] == c {
        lemma_without_leading_idempotent(s.skip(1), c);
    }
}

/// `s` from its first character that is not `c`.
pub fn strip_leading(s: &str, c: char) -> (r: &str)
    ensures
        r@ == without_leading(s@, c),
{
    let cs: Vec<char> = chars_of(s);
    let mut i: usize = 0;
    while i < cs.len() && cs[i] == c
        invariant
            cs@ == s@,
            i <= cs.len(),
            forall|j: int| 0 <= j < i ==> s@[j] == c,
        decreases cs.len() - i,
    {
        i = i + 1;
    }
    proof {
        lemma_without_leading(s@, c, i as int);
        assert(s@.subrange(i as int, s@.len() as int) =~= s@.skip(i as int));
    }
    s.substring_char(i, cs.len())
}

/// `path` lies below the directory `key`: it is `key`, a slash, and more or
/// nothing after the slash.
pub open spec fn is_dir_prefix(key: Seq<char>, path: Seq<char>) -> bool {
    &&& key.len() < path.len()
    &&& path.take(key.len() as int) == key
    &&& path[key.len() as int] == '/'
}

/// Whether `path` lies below the directory `key`.
pub fn lies_below(path: &str, key: &str) -> (r: bool)
    ensures
        r == is_dir_prefix(key@, path@),
{
    let p: Vec<char> = chars_of(path);
    let k: Vec<char> = chars_of(key);
    if k.len() >= p.len() {
        return false;
    }
    if p[k.len()] != '/' {
        return false;
    }
    let mut i: usize = 0;
    while i < k.len()
        invariant
            p@ == path@,
            k@ == key@,
            k.len() < p.len(),
            i <= k.len(),
            forall|j: int| 0 <= j < i ==> path@[j] == key@[j],
        decreases k.len() - i,
    {
        if p[i] != k[i] {
            assert(path@.take(key@.len() as int)[i as int] == path@[i as int]);
            return false;
        }
        i = i + 1;
    }
    assert(path@.take(key@.len() as int) =~= key@);
    true
}

/// `base` extended by the entry `name`: a slash stands between them unless
/// `base` is empty or already ends in one.
pub open spec fn joined_path(base: Seq<char>, name: Seq<char>) -> Seq<char> {
    if base.len() == 0 || base.last() == '/' {
        base + name
    } else {
        base + seq!['/'] + name
    }
}

/// The path of the entry `name` in the directory `base`.
pub fn join_path(base: &str, name: &str) -> (r: String)
    ensures
        r@ == joined_path(base@, name@),
{
    let b: Vec<char> = chars_of(base);
    let mut r: String = String::from_str(base);
    if b.len() > 0 && b[b.len() - 1] != '/' {
        proof {
            reveal_strlit("/");
            assert("/"@ =~= seq!['/']);
        }
        r.append("/");
    }
    r.append(name);
    r
}

/// A decimal digit.
pub open spec fn is_digit(c: char) -> bool {
    '0' <= c && c <= '9'
}

/// The digit that stands for `d`, for `d` below ten.
pub open spec fn digit_char(d: int) -> char {
    if d == 0 {
        '0'
    } else if d == 1 {
        '1'
    } else if d == 2 {
        '2'
    } else if d == 3 {
        '3'
    } else if d == 4 {
        '4'
    } else if d == 5 {
        '5'
    } else if d == 6 {
        '6'
    } else if d == 7 {
        '7'
    } else if d == 8 {
        '8'
    } else {
        '9'
    }
}

/// The number that the digit `c` stands for.
pub open spec fn digit_value(c: char) -> int {
    if c == '0' {
        0
    } else if c == '1' {
        1
    } else if c == '2' {
        2
    } else if c == '3' {
        3
    } else if c == '4' {
        4
    } else if c == '5' {
        5
    } else if c == '6' {
        6
    } else if c == '7' {
        7
    } else if c == '8' {
        8
    } else {
        9
    }
}

/// The number that a run of digits stands for, the empty run for zero.
pub open spec fn digits_value(s: Seq<char>) -> nat
    decreases s.len(),
{
    if s.len() == 0 {
        0
    } else {
        (digits_value(s.drop_last()) * 10 + digit_value(s.last())) as nat
    }
}

/// Every character of `s` is a digit.
pub open spec fn all_digits(s: Seq<char>) -> bool {
    forall|j: int| 0 <= j < s.len() ==> is_digit(#[trigger] s[j])
}

/// A number has a sign at its front.
pub open spec fn has_sign(s: Seq<char>) -> bool {
    s.len() > 0 && (s[0] == '-' || s[0] == '+')
}

/// The integer that `s` writes out: an optional sign and at least one digit,
/// with nothing before, between or after.
pub open spec fn number_of(s: Seq<char>) -> Option<int> {
    let body = if has_sign(s) { s.skip(1) } else { s };
    if body.len() == 0 || !all_digits(body) {
        None
    } else if has_sign(s) && s[0] == '-' {
        Some(-(digits_value(body) as int))
    } else {
        Some(digits_value(body) as int)
    }
}

/// The number that `s` writes out, where it fits in 32 bits.
pub open spec fn i32_of(s: Seq<char>) -> Option<i32> {
    match number_of(s) {
        Some(v) => if i32::MIN <= v <= i32::MAX {
            Some(v as i32)
        } else {
            None
        },
        None => None,
    }
}

/// Reads a 32-bit integer: `None` unless `s` is an optional sign followed by
/// digits whose value fits.
pub fn parse_i32(s: &str) -> (r: Option<i32>)
    ensures
        r == i32_of(s@),
{
    let cs: Vec<char> = chars_of(s);
    let n: usize = cs.len();
    let signed: bool = n > 0 && (cs[0] == '-' || cs[0] == '+');
    let negative: bool = n > 0 && cs[0] == '-';
    let first: usize = if signed { 1 } else { 0 };
    let ghost body = if has_sign(s@) { s@.skip(1) } else { s@ };
    assert(body =~= s@.skip(first as int));
    if first == n {
        return None;
    }
    let mut acc: u64 = 0;
    let mut over: bool = false;
    let mut i: usize = first;
    assert(body.take(0) =~= Seq::<char>::empty());
    while i < n
        invariant
            cs@ == s@,
            n == cs.len(),
            first <= i <= n,
            body == s@.skip(first as int),
            body == (if has_sign(s@) {
                s@.skip(1)
            } else {
                s@
            }),
            all_digits(body.take(i - first)),
            !over ==> acc == digits_value(body.take(i - first)),
            !over ==> acc <= 0x8000_0000,
            over ==> digits_value(body.take(i - first)) > 0x8000_0000,
        decreases n - i,
    {
        let c: char = cs[i];
        let ghost k = i - first;
        assert(body[k] == c);
        assert(body.take(k + 1).drop_last() =~= body.take(k));
        assert(body.take(k + 1).last() == c);
        if !('0' <= c && c <= '9') {
            assert(!is_digit(body[k]));
            return None;
        }
        assert forall|j: int| 0 <= j < k + 1 implies is_digit(#[trigger] body.take(k + 1)[j]) by {
            if j < k {
                assert(body.take(k)[j] == body.take(k + 1)[j]);
            }
        }
        let d: u64 = if c == '0' {
            0
        } else if c == '1' {
            1
        } else if c == '2' {
            2
        } else if c == '3' {
            3
        } else if c == '4' {
            4
        } else if c == '5' {
            5
        } else if c == '6' {
            6
        } else if c == '7' {
            7
        } else if c == '8' {
            8
        } else {
            9
        };
        assert(d == digit_value(c));
        if !over {
            acc = acc * 10 + d;
            if acc > 0x8000_0000 {
                over = true;
            }
        }
        i = i + 1;
    }
    assert(body.take(n - first) =~= body);
    if over {
        return None;
    }
    if negative {
        let v: i64 = -(acc as i64);
        Some(v as i32)
    } else if acc == 0x8000_0000 {
        None
    } else {
        Some(acc as i32)
    }
}

/// The decimal notation of `n`, without leading zeros.
pub open spec fn decimal_of(n: nat) -> Seq<char>
    decreases n,
{
    if n < 10 {
        seq![digit_char(n as int)]
    } else {
        decimal_of(n / 10).push(digit_char((n % 10) as int))
    }
}

/// The notation of a number reads back as that number.
pub proof fn lemma_decimal_reads_back(n: nat)
    ensures
        all_digits(decimal_of(n)),
        decimal_of(n).len() > 0,
        digits_value(decimal_of(n)) == n,
        number_of(decimal_of(n)) == Some(n as int),
    decreases n,
{
    let s = decimal_of(n);
    if n < 10 {
        assert(s.drop_last() =~= Seq::<char>::empty());
        assert(digits_value(s.drop_last()) == 0);
    } else {
        lemma_decimal_reads_back(n / 10);
        assert(s.drop_last() =~= decimal_of(n / 10));
        assert forall|j: int| 0 <= j < s.len() implies is_digit(#[trigger] s[j]) by {
            if j < s.len() - 1 {
                assert(s[j] == decimal_of(n / 10)[j]);
            }
        }
    }
    assert(s[0] != '-' && s[0] != '+');
}

fn digit_text(d: u8) -> (r: &'static str)
    requires
        d < 10,
    ensures
        r@ == seq![digit_char(d as int)],
{
    proof {
        reveal_strlit("0");
        reveal_strlit("1");
        reveal_strlit("2");
        reveal_strlit("3");
        reveal_strlit("4");
        reveal_strlit("5");
        reveal_strlit("6");
        reveal_strlit("7");
        reveal_strlit("8");
        reveal_strlit("9");
    }
    let r: &'static str = if d == 0 {
        "0"
    } else if d == 1 {
        "1"
    } else if d == 2 {
        "2"
    } else if d == 3 {
        "3"
    } else if d == 4 {
        "4"
    } else if d == 5 {
        "5"
    } else if d == 6 {
        "6"
    } else if d == 7 {
        "7"
    } else if d == 8 {
        "8"
    } else {
        "9"
    };
    assert(r@ =~= seq![digit_char(d as int)]);
    r
}

/// Writes `n` in decimal.
pub fn decimal_text(n: u128) -> (r: String)
    ensures
        r@ == decimal_of(n as nat),
    decreases n,
{
    if n < 10 {
        String::from_str(digit_text(n as u8))
    } else {
        let mut r: String = decimal_text(n / 10);
        r.append(digit_text((n % 10) as u8));
        r
    }
}

/// The decimal notation of an integer: a minus sign before the digits of a
/// negative one.
pub open spec fn signed_decimal_of(n: int) -> Seq<char> {
    if n < 0 {
        seq!['-'] + decimal_of((-n) as nat)
    } else {
        decimal_of(n as nat)
    }
}

/// Writes `n` in decimal.
pub fn signed_decimal_text(n: i64) -> (r: String)
    ensures
        r@ == signed_decimal_of(n as int),
{
    if n < 0 {
        proof {
            reveal_strlit("-");
            assert("-"@ =~= seq!['-']);
        }
        let mut r: String = String::from_str("-");
        let magnitude: u128 = (-(n as i128)) as u128;
        r.append(decimal_text(magnitude).as_str());
        r
    } else {
        decimal_text(n as u128)
    }
}

/// Whether `s` holds a NUL character.
pub open spec fn holds_nul(s: Seq<char>) -> bool {
    exists|i: int| 0 <= i < s.len() && s[i] == '\0'
}

/// Whether `s` holds a NUL character, which no argument of a system call may.
pub fn has_nul(s: &str) -> (r: bool)
    ensures
        r == holds_nul(s@),
{
    let cs: Vec<char> = chars_of(s);
    let mut i: usize = 0;
    while i < cs.len()
        invariant
            cs@ == s@,
            i <= cs.len(),
            forall|j: int| 0 <= j < i ==> s@[j] != '\0',
        decreases cs.len() - i,
    {
        if cs[i] == '\0' {
            return true;
        }
        i = i + 1;
    }
    false
}

/// What the `Debug` form of a path shows for a text.
pub uninterp spec fn path_debug_of(s: Seq<char>) -> Seq<char>;

/// `Debug` of `std::path::Path`: the path between double quotes, with the
/// characters that cannot be shown as they are written as escapes. The result
/// is a function of the text alone; nothing more is claimed of it here.
#[verifier::external_body]
pub(crate) fn path_debug(s: &str) -> (r: String)
    ensures
        r@ == path_debug_of(s@),
{
    format!("{:?}", std::path::Path::new(s))
}

/// What `str::to_lowercase` makes of a text.
pub uninterp spec fn lowercase_of(s: Seq<char>) -> Seq<char>;

/// `str::to_lowercase`: the text with every character replaced by its
/// lower-case form as Unicode defines it. The result is a function of the
/// text alone; nothing more is claimed of it here.
#[verifier::external_body]
pub(crate) fn to_lowercase(s: &str) -> (r: String)
    ensures
        r@ == lowercase_of(s@),
{
    s.to_lowercase()
}

} // verus!
