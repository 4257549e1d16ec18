//! Text as sequences of characters: searching, trimming, splitting, joining and numbers.

use vstd::prelude::*;

verus! {

/// `String::push` appends one character to the end of the string.
pub assume_specification[ String::push ](s: &mut String, c: char)
    ensures
        final(s)@ == old(s)@.push(c),
;

/// The characters of a string, in order.
pub fn chars_of(s: &str) -> (r: Vec<char>)
    ensures
        r@ == s@,
{
    let mut r: Vec<char> = Vec::new();
    for c in it: s.chars()
        invariant
            r@ == s@.take(it.index()),
            it.seq() == s@,
    {
        r.push(c);
    }
    r
}

/// The string made of the characters `v[from..to]`.
pub fn text_of_range(v: &Vec<char>, from: usize, to: usize) -> (r: String)
    requires
        from <= to <= v@.len(),
    ensures
        r@ == v@.subrange(from as int, to as int),
{
    let mut r: String = String::new();
    let mut i: usize = from;
    while i < to
        invariant
            from <= i <= to <= v@.len(),
            r@ == v@.subrange(from as int, i as int),
        decreases to - i,
    {
        r.push(v[i]);
        i = i + 1;
    }
    r
}

/// The string made of the characters in `v`.
pub fn text_of(v: &Vec<char>) -> (r: String)
    ensures
        r@ == v@,
{
    let r: String = text_of_range(v, 0, v.len());
    proof {
        assert(v@.subrange(0, v@.len() as int) =~= v@);
    }
    r
}

/// Whether two strings hold the same characters.
pub fn same_text(a: &str, b: &str) -> (r: bool)
    ensures
        r == (a@ == b@),
{
    a.to_owned() == b.to_owned()
}

/// The ASCII lower-case form of a character.
pub open spec fn ascii_lower_char(c: char) -> char {
    if 'A' <= c <= 'Z' {
        ((c as u8) + 32) as char
    } else {
        c
    }
}

/// Every ASCII upper-case letter of `s` in lower case.
pub open spec fn ascii_lower(s: Seq<char>) -> Seq<char> {
    s.map_values(|c: char| ascii_lower_char(c))
}

/// `s` with its ASCII upper-case letters in lower case.
pub fn to_ascii_lower(s: &str) -> (r: String)
    ensures
        r@ == ascii_lower(s@),
{
    let mut r: String = String::new();
    for c in it: s.chars()
        invariant
            r@ == ascii_lower(s@.take(it.index())),
            it.seq() == s@,
    {
        proof {
            assert(s@.take(it.index() + 1) =~= s@.take(it.index()).push(c));
        }
        if 'A' <= c && c <= 'Z' {
            r.push((c as u8 + 32) as char);
        } else {
            r.push(c);
        }
    }
    proof {
        assert(s@.take(s@.len() as int) =~= s@);
    }
    r
}

/// `p` stands in `s` at position `i`.
pub open spec fn occurs_at(s: Seq<char>, p: Seq<char>, i: int) -> bool {
    0 <= i && i + p.len() <= s.len() && s.subrange(i, i + p.len()) == p
}

/// `p` stands somewhere in `s`.
pub open spec fn has_text(s: Seq<char>, p: Seq<char>) -> bool {
    exists|i: int| #[trigger] occurs_at(s, p, i)
}

/// `s` begins with `p`.
pub open spec fn has_prefix(s: Seq<char>, p: Seq<char>) -> bool {
    occurs_at(s, p, 0)
}

/// `s` ends with `p`.
pub open spec fn has_suffix(s: Seq<char>, p: Seq<char>) -> bool {
    occurs_at(s, p, s.len() - p.len())
}

/// Whether `p` stands in `s` at position `i`.
fn matches_at(s: &Vec<char>, p: &Vec<char>, i: usize) -> (r: bool)
    ensures
        r == occurs_at(s@, p@, i as int),
{
    if i > s.len() || s.len() - i < p.len() {
        return false;
    }
    let mut k: usize = 0;
    while k < p.len()
        invariant
            k <= p.len(),
            i + p.len() <= s.len(),
            forall|j: int| 0 <= j < k ==> s@[i + j] == #[trigger] p@[j],
        decreases p@.len() - k,
    {
        if s[i + k] != p[k] {
            proof {
                assert(s@.subrange(i as int, i + p@.len())[k as int] != p@[k as int]);
            }
            return false;
        }
        k = k + 1;
    }
    proof {
        assert(s@.subrange(i as int, i + p@.len()) =~= p@);
    }
    true
}

/// Whether `p` stands somewhere in `s`.
pub fn contains_text(s: &str, p: &str) -> (r: bool)
    ensures
        r == has_text(s@, p@),
{
    let sv: Vec<char> = chars_of(s);
    let pv: Vec<char> = chars_of(p);
    let mut i: usize = 0;
    while i < sv.len()
        invariant
            sv@ == s@,
            pv@ == p@,
            i <= sv@.len(),
            forall|j: int| 0 <= j < i ==> !#[trigger] occurs_at(s@, p@, j),
        decreases sv@.len() - i,
    {
        if matches_at(&sv, &pv, i) {
            return true;
        }
        i = i + 1;
    }
    matches_at(&sv, &pv, i)
}

/// Whether `s` begins with `p`.
pub fn starts_with(s: &str, p: &str) -> (r: bool)
    ensures
        r == has_prefix(s@, p@),
{
    matches_at(&chars_of(s), &chars_of(p), 0)
}

/// Whether `s` ends with `p`.
pub fn ends_with(s: &str, p: &str) -> (r: bool)
    ensures
        r == has_suffix(s@, p@),
{
    let sv: Vec<char> = chars_of(s);
    let pv: Vec<char> = chars_of(p);
    if pv.len() > sv.len() {
        return false;
    }
    matches_at(&sv, &pv, sv.len() - pv.len())
}

/// What follows the prefix `p` of `s`, if `s` begins with `p`.
pub open spec fn after_prefix(s: Seq<char>, p: Seq<char>) -> Option<Seq<char>> {
    if has_prefix(s, p) {
        Some(s.skip(p.len() as int))
    } else {
        None
    }
}

/// The view of an optional string.
pub open spec fn opt_text(o: Option<String>) -> Option<Seq<char>> {
    match o {
        Some(t) => Some(t@),
        None => None,
    }
}

/// The views of a sequence of values.
pub open spec fn views<T: View>(s: Seq<T>) -> Seq<T::V> {
    Seq::new(s.len(), |i: int| s[i]@)
}

/// `s` without its prefix `p`; `None` if it does not begin with `p`.
pub fn strip_prefix(s: &str, p: &str) -> (r: Option<String>)
    ensures
        opt_text(r) == after_prefix(s@, p@),
{
    let sv: Vec<char> = chars_of(s);
    let pv: Vec<char> = chars_of(p);
    if matches_at(&sv, &pv, 0) {
        let r: String = text_of_range(&sv, pv.len(), sv.len());
        proof {
            assert(s@.skip(p@.len() as int) =~= sv@.subrange(pv@.len() as int, sv@.len() as int));
        }
        Some(r)
    } else {
        None
    }
}

/// A character with the Unicode property `White_Space`.
pub open spec fn is_space(c: char) -> bool {
    ||| '\u{9}' <= c <= '\u{d}'
    ||| c == ' '
    ||| c == '\u{85}'
    ||| c == '\u{a0}'
    ||| c == '\u{1680}'
    ||| '\u{2000}' <= c <= '\u{200a}'
    ||| c == '\u{2028}'
    ||| c == '\u{2029}'
    ||| c == '\u{202f}'
    ||| c == '\u{205f}'
    ||| c == '\u{3000}'
}

/// Whether a character has the Unicode property `White_Space`.
pub fn is_white_space(c: char) -> (r: bool)
    ensures
        r == is_space(c),
{
    ('\u{9}' <= c && c <= '\u{d}') || c == ' ' || c == '\u{85}' || c == '\u{a0}' || c
        == '\u{1680}' || ('\u{2000}' <= c && c <= '\u{200a}') || c == '\u{2028}' || c == '\u{2029}'
        || c == '\u{202f}' || c == '\u{205f}' || c == '\u{3000}'
}

/// `s` without the white space at its start.
pub open spec fn trimmed_start(s: Seq<char>) -> Seq<char>
    decreases s.len(),
{
    if s.len() > 0 && is_space(s[0]) {
        trimmed_start(s.skip(1))
    } else {
        s
    }
}

/// `s` without the white space at its end.
pub open spec fn trimmed_end(s: Seq<char>) -> Seq<char>
    decreases s.len(),
{
    if s.len() > 0 && is_space(s.last()) {
        trimmed_end(s.drop_last())
    } else {
        s
    }
}

/// `s` without the white space at its start and at its end.
pub open spec fn trimmed(s: Seq<char>) -> Seq<char> {
    trimmed_end(trimmed_start(s))
}

/// The position of the first character of `v` that is not white space.
fn start_of_text(v: &Vec<char>) -> (from: usize)
    ensures
        from <= v@.len(),
        v@.skip(from as int) == trimmed_start(v@),
{
    let mut from: usize = 0;
    proof {
        assert(v@.skip(0) =~= v@);
    }
    while from < v.len() && is_white_space(v[from])
        invariant
            from <= v@.len(),
            trimmed_start(v@.skip(from as int)) == trimmed_start(v@),
        decreases v@.len() - from,
    {
        proof {
            assert(v@.skip(from as int).skip(1) =~= v@.skip(from + 1));
        }
        from = from + 1;
    }
    from
}

/// The position after the last character of `v[from..]` that is not white space.
fn end_of_text(v: &Vec<char>, from: usize) -> (to: usize)
    requires
        from <= v@.len(),
    ensures
        from <= to <= v@.len(),
        v@.subrange(from as int, to as int) == trimmed_end(v@.skip(from as int)),
{
    let mut to: usize = v.len();
    proof {
        assert(v@.subrange(from as int, to as int) =~= v@.skip(from as int));
    }
    while to > from && is_white_space(v[to - 1])
        invariant
            from <= to <= v@.len(),
            trimmed_end(v@.subrange(from as int, to as int)) == trimmed_end(v@.skip(from as int)),
        decreases to - from,
    {
        proof {
            assert(v@.subrange(from as int, to as int).drop_last() =~= v@.subrange(
                from as int,
                to - 1,
            ));
        }
        to = to - 1;
    }
    to
}

/// `s` without the white space at its start and at its end.
pub fn trim(s: &str) -> (r: String)
    ensures
        r@ == trimmed(s@),
{
    let v: Vec<char> = chars_of(s);
    let from: usize = start_of_text(&v);
    let to: usize = end_of_text(&v, from);
    text_of_range(&v, from, to)
}

/// `s` without the white space at its end.
pub fn trim_end(s: &str) -> (r: String)
    ensures
        r@ == trimmed_end(s@),
{
    let v: Vec<char> = chars_of(s);
    let to: usize = end_of_text(&v, 0);
    proof {
        assert(v@.skip(0) =~= v@);
    }
    text_of_range(&v, 0, to)
}

/// The pieces of `s` between the separators `sep`.
pub open spec fn split_at_each(s: Seq<char>, sep: char) -> Seq<Seq<char>>
    decreases s.len(),
{
    if s.len() == 0 {
        seq![Seq::<char>::empty()]
    } else {
        let before = split_at_each(s.drop_last(), sep);
        if s.last() == sep {
            before.push(Seq::<char>::empty())
        } else {
            before.drop_last().push(before.last().push(s.last()))
        }
    }
}

/// There is always at least one piece.
pub proof fn lemma_split_nonempty(s: Seq<char>, sep: char)
    ensures
        split_at_each(s, sep).len() > 0,
    decreases s.len(),
{
    if s.len() > 0 {
        lemma_split_nonempty(s.drop_last(), sep);
    }
}

/// The pieces of `s` between the separators `sep`.
pub fn split(s: &str, sep: char) -> (r: Vec<String>)
    ensures
        views(r@) == split_at_each(s@, sep),
        r@.len() > 0,
{
    let v: Vec<char> = chars_of(s);
    let mut r: Vec<String> = Vec::new();
    let mut start: usize = 0;
    let mut i: usize = 0;
    proof {
        assert(v@.subrange(0, 0) =~= Seq::<char>::empty());
        assert(views(r@).push(v@.subrange(0, 0)) =~= split_at_each(v@.take(0), sep));
    }
    while i < v.len()
        invariant
            v@ == s@,
            start <= i <= v@.len(),
            views(r@).push(v@.subrange(start as int, i as int)) == split_at_each(
                v@.take(i as int),
                sep,
            ),
        decreases v@.len() - i,
    {
        let ghost shown = views(r@);
        let ghost piece = v@.subrange(start as int, i as int);
        proof {
            assert(v@.take(i + 1).drop_last() =~= v@.take(i as int));
            assert(shown.push(piece).drop_last() =~= shown);
        }
        if v[i] == sep {
            let t: String = text_of_range(&v, start, i);
            r.push(t);
            start = i + 1;
            proof {
                assert(views(r@) =~= shown.push(piece));
                assert(v@.subrange(start as int, i + 1) =~= Seq::<char>::empty());
            }
        } else {
            proof {
                assert(v@.subrange(start as int, i + 1) =~= piece.push(v@[i as int]));
            }
        }
        i = i + 1;
    }
    let t: String = text_of_range(&v, start, i);
    let ghost shown = views(r@);
    r.push(t);
    proof {
        assert(v@.take(i as int) =~= v@);
        assert(views(r@) =~= shown.push(t@));
    }
    r
}

/// A line without the carriage return that belongs to its line break.
pub open spec fn without_cr(line: Seq<char>) -> Seq<char> {
    if line.len() > 0 && line.last() == '\r' {
        line.drop_last()
    } else {
        line
    }
}

/// The lines of `s`: a line ends at `\n` or at `\r\n`, and the last line may lack its end.
pub open spec fn text_lines(s: Seq<char>) -> Seq<Seq<char>> {
    let pieces = split_at_each(s, '\n');
    let ended = pieces.drop_last().map_values(|p: Seq<char>| without_cr(p));
    if pieces.last().len() == 0 {
        ended
    } else {
        ended.push(pieces.last())
    }
}

/// The lines of `s`.
pub fn lines(s: &str) -> (r: Vec<String>)
    ensures
        views(r@) == text_lines(s@),
{
    let pieces: Vec<String> = split(s, '\n');
    let ghost all = split_at_each(s@, '\n');
    let mut r: Vec<String> = Vec::new();
    let mut i: usize = 0;
    let n: usize = pieces.len() - 1;
    while i < n
        invariant
            n == pieces@.len() - 1,
            i <= n,
            all == views(pieces@),
            views(r@) == all.take(i as int).map_values(|p: Seq<char>| without_cr(p)),
        decreases n - i,
    {
        let v: Vec<char> = chars_of(&pieces[i]);
        let to: usize = if v.len() > 0 && v[v.len() - 1] == '\r' {
            v.len() - 1
        } else {
            v.len()
        };
        let t: String = text_of_range(&v, 0, to);
        let ghost shown = views(r@);
        r.push(t);
        proof {
            assert(all[i as int] == pieces@[i as int]@);
            assert(t@ =~= without_cr(all[i as int]));
            assert(views(r@) =~= shown.push(t@));
            assert(views(r@) =~= all.take(i + 1).map_values(|p: Seq<char>| without_cr(p)));
        }
        i = i + 1;
    }
    proof {
        assert(all.take(n as int) =~= all.drop_last());
        assert(all.last() == pieces@[n as int]@);
    }
    if !pieces[n].as_str().is_empty() {
        let ghost shown = views(r@);
        r.push(pieces[n].clone());
        proof {
            assert(views(r@) =~= shown.push(all.last()));
        }
    }
    r
}

/// The parts, one after another, with `sep` between any two.
pub open spec fn joined(parts: Seq<Seq<char>>, sep: Seq<char>) -> Seq<char>
    decreases parts.len(),
{
    if parts.len() == 0 {
        Seq::empty()
    } else if parts.len() == 1 {
        parts[0]
    } else {
        joined(parts.drop_last(), sep) + sep + parts.last()
    }
}

/// The parts in one string, with `sep` between any two.
pub fn join(parts: &Vec<String>, sep: &str) -> (r: String)
    ensures
        r@ == joined(views(parts@), sep@),
{
    let mut r: String = String::new();
    let mut i: usize = 0;
    while i < parts.len()
        invariant
            i <= parts@.len(),
            r@ == joined(views(parts@).take(i as int), sep@),
        decreases parts@.len() - i,
    {
        let ghost done = views(parts@).take(i as int);
        proof {
            assert(views(parts@).take(i + 1).drop_last() =~= done);
        }
        if i > 0 {
            r.append(sep);
        }
        r.append(&parts[i]);
        i = i + 1;
    }
    proof {
        assert(views(parts@).take(i as int) =~= views(parts@));
    }
    r
}

/// The runs of characters of `s` that are not white space.
pub open spec fn words(s: Seq<char>) -> Seq<Seq<char>>
    decreases s.len(),
{
    if s.len() == 0 {
        Seq::empty()
    } else {
        let before = words(s.drop_last());
        if is_space(s.last()) {
            before
        } else if s.len() >= 2 && !is_space(s[s.len() - 2]) {
            before.drop_last().push(before.last().push(s.last()))
        } else {
            before.push(seq![s.last()])
        }
    }
}

/// The words of `s`, in order.
pub fn split_whitespace(s: &str) -> (r: Vec<String>)
    ensures
        views(r@) == words(s@),
{
    let v: Vec<char> = chars_of(s);
    let mut r: Vec<String> = Vec::new();
    let mut start: usize = 0;
    let mut i: usize = 0;
    while i < v.len()
        invariant
            v@ == s@,
            start <= i <= v@.len(),
            start < i <==> (i > 0 && !is_space(v@[i - 1])),
            start == i ==> views(r@) == words(v@.take(i as int)),
            start < i ==> views(r@).push(v@.subrange(start as int, i as int)) == words(
                v@.take(i as int),
            ),
        decreases v@.len() - i,
    {
        let ghost shown = views(r@);
        let ghost piece = v@.subrange(start as int, i as int);
        proof {
            assert(v@.take(i + 1).drop_last() =~= v@.take(i as int));
            assert(shown.push(piece).drop_last() =~= shown);
        }
        if is_white_space(v[i]) {
            if start < i {
                let t: String = text_of_range(&v, start, i);
                r.push(t);
                proof {
                    assert(views(r@) =~= shown.push(piece));
                }
            }
            start = i + 1;
        } else {
            proof {
                assert(v@.subrange(start as int, i + 1) =~= piece.push(v@[i as int]));
                if start == i {
                    assert(piece.push(v@[i as int]) =~= seq![v@[i as int]]);
                }
            }
        }
        i = i + 1;
    }
    proof {
        assert(v@.take(i as int) =~= v@);
    }
    if start < i {
        let t: String = text_of_range(&v, start, i);
        let ghost shown = views(r@);
        r.push(t);
        proof {
            assert(views(r@) =~= shown.push(t@));
        }
    }
    r
}

/// `a` comes before `b` in the order of their code points, character by character.
pub open spec fn text_before(a: Seq<char>, b: Seq<char>) -> bool
    decreases a.len(),
{
    if b.len() == 0 {
        false
    } else if a.len() == 0 {
        true
    } else if a[0] != b[0] {
        a[0] < b[0]
    } else {
        text_before(a.skip(1), b.skip(1))
    }
}

/// Whether `a` comes before `b` in the order of their code points.
pub fn comes_before(a: &str, b: &str) -> (r: bool)
    ensures
        r == text_before(a@, b@),
{
    let av: Vec<char> = chars_of(a);
    let bv: Vec<char> = chars_of(b);
    let mut i: usize = 0;
    proof {
        assert(av@.skip(0) =~= av@);
        assert(bv@.skip(0) =~= bv@);
    }
    while i < av.len() && i < bv.len() && av[i] == bv[i]
        invariant
            i <= av@.len(),
            i <= bv@.len(),
            text_before(a@, b@) == text_before(av@.skip(i as int), bv@.skip(i as int)),
        decreases av@.len() - i,
    {
        proof {
            assert(av@.skip(i as int).skip(1) =~= av@.skip(i + 1));
            assert(bv@.skip(i as int).skip(1) =~= bv@.skip(i + 1));
        }
        i = i + 1;
    }
    if i >= bv.len() {
        false
    } else if i >= av.len() {
        true
    } else {
        av[i] < bv[i]
    }
}

/// No text comes before itself.
pub proof fn lemma_before_irreflexive(a: Seq<char>)
    ensures
        !text_before(a, a),
    decreases a.len(),
{
    if a.len() > 0 {
        lemma_before_irreflexive(a.skip(1));
    }
}

/// Of two different texts, exactly one comes before the other.
pub proof fn lemma_before_total(a: Seq<char>, b: Seq<char>)
    ensures
        a == b || text_before(a, b) || text_before(b, a),
        !(text_before(a, b) && text_before(b, a)),
    decreases a.len(),
{
    if a.len() == 0 || b.len() == 0 {
        if a.len() == 0 && b.len() == 0 {
            assert(a =~= b);
        }
    } else if a[0] == b[0] {
        lemma_before_total(a.skip(1), b.skip(1));
        if a.skip(1) == b.skip(1) {
            assert(a =~= seq![a[0]] + a.skip(1));
            assert(b =~= seq![b[0]] + b.skip(1));
        }
    }
}

/// The order of texts is transitive.
pub proof fn lemma_before_transitive(a: Seq<char>, b: Seq<char>, c: Seq<char>)
    requires
        text_before(a, b),
        text_before(b, c),
    ensures
        text_before(a, c),
    decreases a.len(),
{
    if a.len() > 0 && a[0] == b[0] && b[0] == c[0] {
        lemma_before_transitive(a.skip(1), b.skip(1), c.skip(1));
    }
}

/// The decimal digit for `d`.
pub open spec fn digit_char(d: int) -> char {
    ('0' as u8 + d) as char
}

/// `n` in decimal, without leading zeros.
pub open spec fn decimal(n: nat) -> Seq<char>
    decreases n,
{
    if n < 10 {
        seq![digit_char(n as int)]
    } else {
        decimal(n / 10).push(digit_char((n % 10) as int))
    }
}

/// `n` in decimal.
pub fn decimal_text(n: u64) -> (r: String)
    ensures
        r@ == decimal(n as nat),
    decreases n,
{
    let mut r: String = if n < 10 {
        String::new()
    } else {
        decimal_text(n / 10)
    };
    let d: u8 = (n % 10) as u8;
    r.push((48 + d) as char);
    proof {
        assert(seq![digit_char(n as int % 10)] =~= Seq::<char>::empty().push(
            digit_char(n as int % 10),
        ));
    }
    r
}

/// A decimal digit.
pub open spec fn is_digit(c: char) -> bool {
    '0' <= c <= '9'
}

/// Every character of `s` is a decimal digit.
pub open spec fn all_digits(s: Seq<char>) -> bool {
    forall|i: int| 0 <= i < s.len() ==> is_digit(#[trigger] s[i])
}

/// The number that the decimal digits `s` stand for.
pub open spec fn digits_value(s: Seq<char>) -> nat
    decreases s.len(),
{
    if s.len() == 0 {
        0
    } else {
        digits_value(s.drop_last()) * 10 + (s.last() as nat - '0' as nat) as nat
    }
}

/// The value of the digits `s` if there is at least one and it is at most `max`.
pub open spec fn digits_upto(s: Seq<char>, max: nat) -> Option<nat> {
    if s.len() > 0 && all_digits(s) && digits_value(s) <= max {
        Some(digits_value(s))
    } else {
        None
    }
}

/// The unsigned number that `s` stands for, if it is at most `max`: digits, after at most one `+`.
pub open spec fn unsigned_upto(s: Seq<char>, max: nat) -> Option<nat> {
    if s.len() > 0 && s[0] == '+' {
        digits_upto(s.skip(1), max)
    } else {
        digits_upto(s, max)
    }
}

/// The signed number that `s` stands for, if 64 bits hold it: digits, after at most one sign.
pub open spec fn signed_64(s: Seq<char>) -> Option<int> {
    if s.len() > 0 && s[0] == '-' {
        match digits_upto(s.skip(1), 0x8000_0000_0000_0000) {
            Some(n) => Some(-(n as int)),
            None => None,
        }
    } else {
        match unsigned_upto(s, 0x7fff_ffff_ffff_ffff) {
            Some(n) => Some(n as int),
            None => None,
        }
    }
}

/// More digits never stand for a smaller number.
proof fn lemma_digits_value_grows(s: Seq<char>, i: int)
    requires
        0 <= i <= s.len(),
        all_digits(s),
    ensures
        digits_value(s.take(i)) <= digits_value(s),
    decreases s.len(),
{
    if i == s.len() {
        assert(s.take(i) =~= s);
    } else {
        lemma_digits_value_grows(s.drop_last(), i);
        assert(s.drop_last().take(i) =~= s.take(i));
    }
}

/// The value of the digits `v[from..]`.
fn parse_digits(v: &Vec<char>, from: usize, max: u64) -> (r: Option<u64>)
    requires
        from <= v@.len(),
    ensures
        (match r {
            Some(n) => Some(n as nat),
            None => None,
        }) == digits_upto(v@.skip(from as int), max as nat),
{
    let ghost s = v@.skip(from as int);
    if from == v.len() {
        return None;
    }
    let mut n: u64 = 0;
    let mut i: usize = from;
    while i < v.len()
        invariant
            from <= i <= v@.len(),
            s == v@.skip(from as int),
            n == digits_value(s.take(i - from)),
            n <= max,
            forall|k: int| 0 <= k < i - from ==> is_digit(#[trigger] s[k]),
        decreases v@.len() - i,
    {
        let c: char = v[i];
        proof {
            assert(s[i - from] == c);
            assert(s.take(i - from + 1).drop_last() =~= s.take(i - from));
        }
        if !('0' <= c && c <= '9') {
            return None;
        }
        let d: u64 = (c as u32 - 48) as u64;
        proof {
            if all_digits(s) {
                lemma_digits_value_grows(s, i - from + 1);
            }
        }
        if n > (max - d.min(max)) / 10 || d > max {
            return None;
        }
        n = n * 10 + d;
        i = i + 1;
    }
    proof {
        assert(s.take(s.len() as int) =~= s);
    }
    Some(n)
}

/// The value of the digits `s` if there is at least one and it is at most `max`.
pub fn parse_only_digits(s: &str, max: u64) -> (r: Option<u64>)
    ensures
        opt_nat(r) == digits_upto(s@, max as nat),
{
    let v: Vec<char> = chars_of(s);
    proof {
        assert(v@.skip(0) =~= v@);
    }
    parse_digits(&v, 0, max)
}

/// An optional machine number as a mathematical one.
pub open spec fn opt_nat(o: Option<u64>) -> Option<nat> {
    match o {
        Some(n) => Some(n as nat),
        None => None,
    }
}

/// The unsigned number that `s` stands for, if it is at most `max`.
pub fn parse_unsigned(s: &str, max: u64) -> (r: Option<u64>)
    ensures
        opt_nat(r) == unsigned_upto(s@, max as nat),
{
    let v: Vec<char> = chars_of(s);
    if v.len() > 0 && v[0] == '+' {
        parse_digits(&v, 1, max)
    } else {
        proof {
            assert(v@.skip(0) =~= v@);
        }
        parse_digits(&v, 0, max)
    }
}

/// The signed number that `s` stands for, if 64 bits hold it.
pub fn parse_i64(s: &str) -> (r: Option<i64>)
    ensures
        (match r {
            Some(n) => Some(n as int),
            None => None,
        }) == signed_64(s@),
{
    let v: Vec<char> = chars_of(s);
    if v.len() > 0 && v[0] == '-' {
        match parse_digits(&v, 1, 0x8000_0000_0000_0000) {
            Some(n) => {
                if n == 0x8000_0000_0000_0000 {
                    Some(i64::MIN)
                } else {
                    Some(-(n as i64))
                }
            },
            None => None,
        }
    } else {
        match parse_unsigned(s, 0x7fff_ffff_ffff_ffff) {
            Some(n) => Some(n as i64),
            None => None,
        }
    }
}

/// The lower-case hexadecimal digit for `d`.
pub open spec fn hex_char(d: int) -> char {
    if d < 10 {
        ('0' as u8 + d) as char
    } else {
        ('a' as u8 + (d - 10)) as char
    }
}

/// The bytes in lower-case hexadecimal, two digits a byte.
pub open spec fn hex(bytes: Seq<u8>) -> Seq<char> {
    Seq::new(
        2 * bytes.len(),
        |i: int|
            if i % 2 == 0 {
                hex_char(bytes[i / 2] as int / 16)
            } else {
                hex_char(bytes[i / 2] as int % 16)
            },
    )
}

/// The lower-case hexadecimal digit for `d`.
fn hex_digit(d: u8) -> (c: char)
    requires
        d < 16,
    ensures
        c == hex_char(d as int),
{
    if d < 10 {
        (48 + d) as char
    } else {
        (97 + (d - 10)) as char
    }
}

/// The bytes in lower-case hexadecimal.
pub fn hex_text(bytes: &Vec<u8>) -> (r: String)
    ensures
        r@ == hex(bytes@),
{
    let mut r: String = String::new();
    let mut i: usize = 0;
    while i < bytes.len()
        invariant
            i <= bytes@.len(),
            r@ == hex(bytes@.take(i as int)),
        decreases bytes@.len() - i,
    {
        let b: u8 = bytes[i];
        r.push(hex_digit(b / 16));
        r.push(hex_digit(b % 16));
        i = i + 1;
        proof {
            assert(r@ =~= hex(bytes@.take(i as int)));
        }
    }
    proof {
        assert(bytes@.take(i as int) =~= bytes@);
    }
    r
}

/// `n` in lower-case hexadecimal, without leading zeros.
pub open spec fn hex_number(n: nat) -> Seq<char>
    decreases n,
{
    if n < 16 {
        seq![hex_char(n as int)]
    } else {
        hex_number(n / 16).push(hex_char((n % 16) as int))
    }
}

/// `n` in lower-case hexadecimal.
pub fn hex_number_text(n: u128) -> (r: String)
    ensures
        r@ == hex_number(n as nat),
    decreases n,
{
    let mut r: String = if n < 16 {
        String::new()
    } else {
        hex_number_text(n / 16)
    };
    r.push(hex_digit((n % 16) as u8));
    proof {
        assert(seq![hex_char(n as int % 16)] =~= Seq::<char>::empty().push(
            hex_char(n as int % 16),
        ));
    }
    r
}

/// A hexadecimal digit in either case.
pub open spec fn is_hex_digit(c: char) -> bool {
    '0' <= c <= '9' || 'a' <= c <= 'f' || 'A' <= c <= 'F'
}

/// Every character of `s` is a hexadecimal digit.
pub open spec fn all_hex(s: Seq<char>) -> bool {
    forall|i: int| 0 <= i < s.len() ==> is_hex_digit(#[trigger] s[i])
}

/// Whether every character of `v` is a hexadecimal digit.
pub fn is_all_hex(v: &Vec<char>) -> (r: bool)
    ensures
        r == all_hex(v@),
{
    let mut i: usize = 0;
    while i < v.len()
        invariant
            i <= v@.len(),
            forall|k: int| 0 <= k < i ==> is_hex_digit(#[trigger] v@[k]),
        decreases v@.len() - i,
    {
        let c: char = v[i];
        if !(('0' <= c && c <= '9') || ('a' <= c && c <= 'f') || ('A' <= c && c <= 'F')) {
            return false;
        }
        i = i + 1;
    }
    true
}

/// `s` without the wildcards `%` and `_`.
pub open spec fn without_wildcards(s: Seq<char>) -> Seq<char> {
    s.filter(|c: char| c != '%' && c != '_')
}

/// `s` without the wildcards `%` and `_`.
pub fn strip_wildcards(s: &str) -> (r: String)
    ensures
        r@ == without_wildcards(s@),
{
    let mut r: String = String::new();
    let v: Vec<char> = chars_of(s);
    let mut i: usize = 0;
    let ghost keep = |c: char| c != '%' && c != '_';
    proof {
        assert(v@.take(0) =~= Seq::<char>::empty());
    }
    while i < v.len()
        invariant
            v@ == s@,
            i <= v@.len(),
            keep == (|c: char| c != '%' && c != '_'),
            r@ == v@.take(i as int).filter(keep),
        decreases v@.len() - i,
    {
        proof {
            assert(v@.take(i + 1).drop_last() =~= v@.take(i as int));
            reveal(Seq::filter);
        }
        if v[i] != '%' && v[i] != '_' {
            r.push(v[i]);
        }
        i = i + 1;
    }
    proof {
        assert(v@.take(i as int) =~= v@);
    }
    r
}

/// How many bytes a character takes in UTF-8.
pub open spec fn utf8_width(c: char) -> nat {
    if c <= '\u{7f}' {
        1
    } else if c <= '\u{7ff}' {
        2
    } else if c <= '\u{ffff}' {
        3
    } else {
        4
    }
}

/// How many bytes a text takes in UTF-8.
pub open spec fn byte_len(s: Seq<char>) -> nat
    decreases s.len(),
{
    if s.len() == 0 {
        0
    } else {
        byte_len(s.drop_last()) + utf8_width(s.last())
    }
}

/// The longest part at the start of `s` that takes at most `max` bytes.
pub open spec fn prefix_within(s: Seq<char>, max: nat) -> Seq<char>
    decreases s.len(),
{
    if s.len() == 0 || byte_len(s) <= max {
        s
    } else {
        prefix_within(s.drop_last(), max)
    }
}

/// What is kept takes at most `max` bytes, and one character more would take more.
pub proof fn lemma_prefix_within(s: Seq<char>, max: nat)
    ensures
        byte_len(prefix_within(s, max)) <= max,
        prefix_within(s, max).len() <= s.len(),
        prefix_within(s, max) == s.take(prefix_within(s, max).len() as int),
        prefix_within(s, max).len() < s.len() ==> byte_len(
            s.take(prefix_within(s, max).len() as int + 1),
        ) > max,
    decreases s.len(),
{
    if s.len() == 0 || byte_len(s) <= max {
        assert(s.take(s.len() as int) =~= s);
    } else {
        let front = s.drop_last();
        lemma_prefix_within(front, max);
        let n = prefix_within(s, max).len() as int;
        assert(front.take(n) =~= s.take(n));
        if n < front.len() {
            assert(front.take(n + 1) =~= s.take(n + 1));
        } else {
            assert(s.take(n + 1) =~= s);
        }
    }
}

proof fn lemma_byte_len_grows(s: Seq<char>, i: int)
    requires
        0 <= i <= s.len(),
    ensures
        byte_len(s.take(i)) <= byte_len(s),
    decreases s.len(),
{
    if i == s.len() {
        assert(s.take(i) =~= s);
    } else {
        lemma_byte_len_grows(s.drop_last(), i);
        assert(s.drop_last().take(i) =~= s.take(i));
    }
}

proof fn lemma_prefix_within_is(s: Seq<char>, max: nat, i: int)
    requires
        0 <= i <= s.len(),
        byte_len(s.take(i)) <= max,
        i < s.len() ==> byte_len(s.take(i + 1)) > max,
    ensures
        prefix_within(s, max) == s.take(i),
    decreases s.len(),
{
    if i == s.len() {
        assert(s.take(i) =~= s);
    } else {
        lemma_byte_len_grows(s, i + 1);
        let front = s.drop_last();
        assert(front.take(i) =~= s.take(i));
        if i < front.len() {
            assert(front.take(i + 1) =~= s.take(i + 1));
        }
        lemma_prefix_within_is(front, max, i);
    }
}

/// How many bytes a character takes in UTF-8.
fn width_of(c: char) -> (r: usize)
    ensures
        r == utf8_width(c),
{
    if c <= '\u{7f}' {
        1
    } else if c <= '\u{7ff}' {
        2
    } else if c <= '\u{ffff}' {
        3
    } else {
        4
    }
}

/// The longest part at the start of `s` that takes at most `max` bytes, and whether that is less
/// than the whole.
pub fn cut_at_bytes(s: &str, max: usize) -> (r: (String, bool))
    ensures
        r.0@ == prefix_within(s@, max as nat),
        r.1 == (byte_len(s@) > max),
{
    let v: Vec<char> = chars_of(s);
    let mut used: usize = 0;
    let mut i: usize = 0;
    while i < v.len()
        invariant
            v@ == s@,
            i <= v@.len(),
            used <= max,
            used == byte_len(v@.take(i as int)),
        decreases v@.len() - i,
    {
        let w: usize = width_of(v[i]);
        proof {
            assert(v@.take(i + 1).drop_last() =~= v@.take(i as int));
        }
        if w > max - used {
            proof {
                lemma_byte_len_grows(v@, i + 1);
                lemma_prefix_within_is(v@, max as nat, i as int);
                assert(v@.take(i as int) =~= v@.subrange(0, i as int));
            }
            return (text_of_range(&v, 0, i), true);
        }
        used = used + w;
        i = i + 1;
    }
    proof {
        assert(v@.take(i as int) =~= v@);
    }
    (s.to_owned(), false)
}

/// Splitting a text around a separator splits both sides of it.
pub proof fn lemma_split_concat(a: Seq<char>, b: Seq<char>, sep: char)
    ensures
        split_at_each(a.push(sep) + b, sep) == split_at_each(a, sep) + split_at_each(b, sep),
    decreases b.len(),
{
    let whole = a.push(sep) + b;
    if b.len() == 0 {
        assert(whole =~= a.push(sep));
        assert(whole.drop_last() =~= a);
        assert(split_at_each(a, sep).push(Seq::<char>::empty()) =~= split_at_each(a, sep) + seq![
            Seq::<char>::empty(),
        ]);
    } else {
        let front = b.drop_last();
        lemma_split_concat(a, front, sep);
        lemma_split_nonempty(front, sep);
        assert(whole.drop_last() =~= a.push(sep) + front);
        let sa = split_at_each(a, sep);
        let sf = split_at_each(front, sep);
        if b.last() == sep {
            assert((sa + sf).push(Seq::<char>::empty()) =~= sa + sf.push(Seq::<char>::empty()));
        } else {
            let last = sf.last().push(b.last());
            assert((sa + sf).last() == sf.last());
            assert((sa + sf).drop_last().push(last) =~= sa + sf.drop_last().push(last));
        }
    }
}

/// A text without the separator is one piece.
pub proof fn lemma_split_single(s: Seq<char>, sep: char)
    requires
        !s.contains(sep),
    ensures
        split_at_each(s, sep) == seq![s],
    decreases s.len(),
{
    if s.len() == 0 {
        assert(s =~= Seq::<char>::empty());
    } else {
        assert forall|c: char| #[trigger] s.drop_last().contains(c) implies s.contains(c) by {
            let k = choose|k: int| 0 <= k < s.drop_last().len() && s.drop_last()[k] == c;
            assert(s[k] == c);
        }
        lemma_split_single(s.drop_last(), sep);
        assert(s.contains(s.last())) by {
            assert(s[s.len() - 1] == s.last());
        }
        assert(s.drop_last().push(s.last()) =~= s);
        assert(split_at_each(s, sep) =~= seq![s]);
    }
}

/// The same strings again.
pub fn copy_texts(v: &Vec<String>) -> (r: Vec<String>)
    ensures
        views(r@) == views(v@),
{
    let mut r: Vec<String> = Vec::new();
    let mut i: usize = 0;
    while i < v.len()
        invariant
            i <= v@.len(),
            r@.len() == i,
            forall|k: int| 0 <= k < i ==> (#[trigger] r@[k])@ == v@[k]@,
        decreases v@.len() - i,
    {
        r.push(v[i].clone());
        i = i + 1;
    }
    proof {
        assert(views(r@) =~= views(v@));
    }
    r
}

/// Whether `files` holds the text `f`.
pub fn holds_text(files: &Vec<String>, f: &str) -> (r: bool)
    ensures
        r == views(files@).contains(f@),
{
    let mut i: usize = 0;
    while i < files.len()
        invariant
            i <= files@.len(),
            forall|k: int| 0 <= k < i ==> views(files@)[k] != f@,
        decreases files@.len() - i,
    {
        if same_text(&files[i], f) {
            proof {
                assert(views(files@)[i as int] == f@);
            }
            return true;
        }
        i = i + 1;
    }
    false
}

/// The texts without those that stand in front of them already.
pub open spec fn first_ones(s: Seq<Seq<char>>) -> Seq<Seq<char>>
    decreases s.len(),
{
    if s.len() == 0 {
        Seq::empty()
    } else {
        let f = first_ones(s.drop_last());
        if f.contains(s.last()) {
            f
        } else {
            f.push(s.last())
        }
    }
}

/// The texts, each once.
pub fn unique_texts(texts: &Vec<String>) -> (r: Vec<String>)
    ensures
        views(r@) == first_ones(views(texts@)),
{
    let ghost all = views(texts@);
    let mut r: Vec<String> = Vec::new();
    let mut i: usize = 0;
    proof {
        assert(views(r@) =~= first_ones(all.take(0)));
    }
    while i < texts.len()
        invariant
            i <= texts@.len(),
            all == views(texts@),
            views(r@) == first_ones(all.take(i as int)),
        decreases texts@.len() - i,
    {
        let ghost shown = views(r@);
        proof {
            assert(all.take(i + 1).drop_last() =~= all.take(i as int));
            assert(all.take(i + 1).last() == texts@[i as int]@);
        }
        if !holds_text(&r, &texts[i]) {
            r.push(texts[i].clone());
            proof {
                assert(views(r@) =~= shown.push(texts@[i as int]@));
            }
        }
        i = i + 1;
    }
    proof {
        assert(all.take(i as int) =~= all);
    }
    r
}

/// What `format!` with `{:?}` makes of a text.
pub uninterp spec fn quoted_text_of(s: Seq<char>) -> Seq<char>;

/// The text in quotation marks, by `format!` with `{:?}`.
///
/// Trusted: that the result depends on the text alone. Which characters are escaped, and how, is not
/// stated.
#[verifier::external_body]
pub(crate) fn quoted_text(s: &str) -> (r: String)
    ensures
        r@ == quoted_text_of(s@),
{
    format!("{:?}", s)
}

/// A text holds another exactly if it is made of something, that other text, and something more;
/// it starts with another if nothing stands in front, and then what is left is the rest; it ends
/// with another if nothing stands behind.
pub proof fn lemma_holding_text(before: Seq<char>, p: Seq<char>, after: Seq<char>)
    ensures
        has_text(before + p + after, p),
        has_prefix(p + after, p),
        after_prefix(p + after, p) == Some(after),
        has_suffix(before + p, p),
{
    let s = before + p + after;
    assert(s.subrange(before.len() as int, (before.len() + p.len()) as int) =~= p);
    assert(occurs_at(s, p, before.len() as int));
    assert((p + after).subrange(0, p.len() as int) =~= p);
    assert((p + after).skip(p.len() as int) =~= after);
    assert((before + p).subrange(before.len() as int, (before.len() + p.len()) as int) =~= p);
}

/// Where a text is held, started or ended with, it can be taken apart accordingly.
pub proof fn lemma_text_taken_apart(s: Seq<char>, p: Seq<char>)
    ensures
        has_text(s, p) ==> exists|a: Seq<char>, b: Seq<char>| s == #[trigger] (a + p + b),
        has_prefix(s, p) ==> exists|b: Seq<char>| s == #[trigger] (p + b),
        has_suffix(s, p) ==> exists|a: Seq<char>| s == #[trigger] (a + p),
        after_prefix(s, p) is Some <==> has_prefix(s, p),
{
    if has_text(s, p) {
        let i = choose|i: int| #[trigger] occurs_at(s, p, i);
        assert(s =~= s.take(i) + p + s.skip(i + p.len())) by {
            assert(s =~= s.take(i) + s.subrange(i, i + p.len()) + s.skip(i + p.len()));
        }
    }
    if has_prefix(s, p) {
        assert(s =~= s.subrange(0, p.len() as int) + s.skip(p.len() as int));
        assert(s == p + s.skip(p.len() as int));
    }
    if has_suffix(s, p) {
        let n = s.len() - p.len();
        assert(s =~= s.take(n) + s.subrange(n, n + p.len()));
        assert(s == s.take(n) + p);
    }
}

proof fn lemma_trim_start(a: Seq<char>, t: Seq<char>)
    requires
        forall|i: int| 0 <= i < a.len() ==> is_space(#[trigger] a[i]),
    ensures
        t.len() > 0 && !is_space(t[0]) ==> trimmed_start(a + t) == t,
        trimmed_start(a).len() == 0,
    decreases a.len(),
{
    if a.len() == 0 {
        assert(a + t =~= t);
    } else {
        assert(is_space(a[0]));
        assert forall|i: int| 0 <= i < a.skip(1).len() implies is_space(
            #[trigger] a.skip(1)[i],
        ) by {
            assert(is_space(a[i + 1]));
        }
        lemma_trim_start(a.skip(1), t);
        assert((a + t).skip(1) =~= a.skip(1) + t);
        assert((a + t)[0] == a[0]);
    }
}

proof fn lemma_trim_end(t: Seq<char>, b: Seq<char>)
    requires
        forall|i: int| 0 <= i < b.len() ==> is_space(#[trigger] b[i]),
        t.len() > 0 ==> !is_space(t.last()),
    ensures
        trimmed_end(t + b) == t,
    decreases b.len(),
{
    if b.len() == 0 {
        assert(t + b =~= t);
    } else {
        assert(is_space(b[b.len() - 1]));
        lemma_trim_end(t, b.drop_last());
        assert((t + b).drop_last() =~= t + b.drop_last());
        assert((t + b).last() == b.last());
    }
}

/// To trim a text takes all white space off both ends and nothing else.
pub proof fn lemma_trim_takes_space(a: Seq<char>, t: Seq<char>, b: Seq<char>)
    requires
        forall|i: int| 0 <= i < a.len() ==> is_space(#[trigger] a[i]),
        forall|i: int| 0 <= i < b.len() ==> is_space(#[trigger] b[i]),
        t.len() > 0 ==> !is_space(t[0]) && !is_space(t.last()),
    ensures
        trimmed(a + t + b) == t,
        trimmed_end(t + b) == t,
{
    if t.len() > 0 {
        assert(a + t + b =~= a + (t + b));
        assert((t + b)[0] == t[0]);
        lemma_trim_start(a, t + b);
        lemma_trim_end(t, b);
    } else {
        let w = a + t + b;
        assert(w =~= a + b);
        assert forall|i: int| 0 <= i < w.len() implies is_space(#[trigger] w[i]) by {
            if i < a.len() {
                assert(w[i] == a[i]);
            } else {
                assert(w[i] == b[i - a.len()]);
            }
        }
        lemma_trim_start(w, t);
        assert(trimmed_start(w) =~= t);
        lemma_trim_end(t, b);
    }
}

/// Put together with the separator between them, the pieces of a text are that text, and no piece
/// holds the separator.
pub proof fn lemma_pieces_joined(s: Seq<char>, sep: char)
    ensures
        joined(split_at_each(s, sep), seq![sep]) == s,
        forall|i: int|
            0 <= i < split_at_each(s, sep).len() ==> !(#[trigger] split_at_each(s, sep)[i]).contains(
                sep,
            ),
    decreases s.len(),
{
    let all = split_at_each(s, sep);
    if s.len() == 0 {
        assert(joined(all, seq![sep]) =~= s);
    } else {
        let front = s.drop_last();
        let before = split_at_each(front, sep);
        lemma_split_nonempty(front, sep);
        lemma_pieces_joined(front, sep);
        assert(front.push(s.last()) =~= s);
        if s.last() == sep {
            assert(all.drop_last() =~= before);
            assert(joined(all, seq![sep]) =~= s);
        } else {
            let grown = before.last().push(s.last());
            assert(all.drop_last() =~= before.drop_last());
            if before.len() == 1 {
                assert(joined(before, seq![sep]) == before.last());
                assert(joined(all, seq![sep]) == grown);
            } else {
                assert(joined(all, seq![sep]) =~= joined(before, seq![sep]).push(s.last()));
            }
            assert forall|i: int| 0 <= i < all.len() implies !(#[trigger] all[i]).contains(sep) by {
                if i < before.len() - 1 {
                    assert(all[i] == before[i]);
                } else {
                    assert(!before[before.len() - 1].contains(sep));
                    if grown.contains(sep) {
                        let k = choose|k: int| 0 <= k < grown.len() && grown[k] == sep;
                        assert(before.last()[k] == sep);
                    }
                }
            }
        }
    }
}

/// The lines of a text: what stands before the first line end, without a carriage return at its
/// end, and the lines behind it; a text without line end is one line, an empty one none.
pub proof fn lemma_lines_of(line: Seq<char>, rest: Seq<char>)
    requires
        !line.contains('\n'),
    ensures
        text_lines(line.push('\n') + rest) == seq![without_cr(line)] + text_lines(rest),
        line.len() > 0 ==> text_lines(line) == seq![line],
        text_lines(Seq::empty()).len() == 0,
        without_cr(line.push('\r')) == line,
        line.len() == 0 || line.last() != '\r' ==> without_cr(line) == line,
{
    lemma_split_concat(line, rest, '\n');
    lemma_split_single(line, '\n');
    lemma_split_nonempty(rest, '\n');
    let all = split_at_each(line.push('\n') + rest, '\n');
    let tail = split_at_each(rest, '\n');
    assert(all == seq![line] + tail);
    assert(all.last() == tail.last());
    assert(text_lines(line.push('\n') + rest) =~= seq![without_cr(line)] + text_lines(rest));
    if line.len() > 0 {
        assert(text_lines(line) =~= seq![line]);
    }
    assert(split_at_each(Seq::<char>::empty(), '\n') =~= seq![Seq::<char>::empty()]);
    assert(line.push('\r').drop_last() =~= line);
}

proof fn lemma_words_apart(a: Seq<char>, c: char, b: Seq<char>)
    requires
        is_space(c),
    ensures
        words(a.push(c) + b) == words(a) + words(b),
        b.len() > 0 && !is_space(b.last()) ==> words(b).len() > 0,
    decreases b.len(),
{
    let s = a.push(c) + b;
    if b.len() == 0 {
        assert(s =~= a.push(c));
        assert(a.push(c).drop_last() =~= a);
        assert(words(s) =~= words(a) + words(b));
    } else {
        let front = b.drop_last();
        lemma_words_apart(a, c, front);
        assert(s.drop_last() =~= a.push(c) + front);
        assert(s.last() == b.last());
        if !is_space(b.last()) {
            if b.len() >= 2 {
                assert(s[s.len() - 2] == b[b.len() - 2]);
                if !is_space(b[b.len() - 2]) {
                    assert(front.last() == b[b.len() - 2]);
                    let before = words(a) + words(front);
                    assert(before.last() == words(front).last());
                    assert(before.drop_last() =~= words(a) + words(front).drop_last());
                }
            } else {
                assert(s[s.len() - 2] == c);
            }
        }
        assert(words(s) =~= words(a) + words(b));
    }
}

proof fn lemma_one_word(w: Seq<char>)
    requires
        w.len() > 0,
        forall|i: int| 0 <= i < w.len() ==> !is_space(#[trigger] w[i]),
    ensures
        words(w) == seq![w],
    decreases w.len(),
{
    assert(!is_space(w[w.len() - 1]));
    if w.len() == 1 {
        assert(words(w.drop_last()) =~= Seq::<Seq<char>>::empty());
        assert(words(w) =~= seq![w]) by {
            assert(seq![w.last()] =~= w);
        }
    } else {
        assert forall|i: int| 0 <= i < w.drop_last().len() implies !is_space(
            #[trigger] w.drop_last()[i],
        ) by {
            assert(!is_space(w[i]));
        }
        lemma_one_word(w.drop_last());
        assert(!is_space(w[w.len() - 2]));
        assert(w.drop_last().push(w.last()) =~= w);
        assert(words(w) =~= seq![w]);
    }
}

/// The words of a text: white space at the start is passed over, what stands up to the next white
/// space is a word, and the words behind that follow.
pub proof fn lemma_words_of(w: Seq<char>, c: char, rest: Seq<char>)
    requires
        w.len() > 0,
        forall|i: int| 0 <= i < w.len() ==> !is_space(#[trigger] w[i]),
        is_space(c),
    ensures
        words(w.push(c) + rest) == seq![w] + words(rest),
        words(seq![c] + rest) == words(rest),
        words(w) == seq![w],
        words(Seq::empty()).len() == 0,
{
    lemma_one_word(w);
    lemma_words_apart(w, c, rest);
    lemma_words_apart(Seq::empty(), c, rest);
    assert(Seq::<char>::empty().push(c) =~= seq![c]);
    assert(words(Seq::<char>::empty()) + words(rest) =~= words(rest));
}

/// Texts are in the order of their first different characters; a text comes before those that go
/// on behind it.
pub proof fn lemma_text_order(p: Seq<char>, a: Seq<char>, b: Seq<char>)
    ensures
        text_before(p + a, p + b) == text_before(a, b),
        a.len() > 0 && b.len() > 0 && a[0] < b[0] ==> text_before(p + a, p + b),
        b.len() > 0 ==> text_before(p, p + b),
        !text_before(p + b, p),
    decreases p.len(),
{
    if p.len() == 0 {
        assert(p + a =~= a);
        assert(p + b =~= b);
    } else {
        lemma_text_order(p.skip(1), a, b);
        assert((p + a).skip(1) =~= p.skip(1) + a);
        assert((p + b).skip(1) =~= p.skip(1) + b);
        assert((p + a)[0] == p[0] && (p + b)[0] == p[0]);
    }
}

/// A number is written with digits only, without a zero in front, and reads back as itself.
pub proof fn lemma_decimal_reads_back(n: nat)
    ensures
        decimal(n).len() > 0,
        all_digits(decimal(n)),
        digits_value(decimal(n)) == n,
        n > 0 ==> decimal(n)[0] != '0',
        n == 0 ==> decimal(n) == seq!['0'],
    decreases n,
{
    if n < 10 {
        let d = digit_char(n as int);
        assert(d as nat == '0' as nat + n);
        let s = decimal(n);
        assert(s == seq![d]);
        assert(s.drop_last() =~= Seq::<char>::empty());
        assert(digits_value(s) == digits_value(s.drop_last()) * 10 + n);
    } else {
        lemma_decimal_reads_back(n / 10);
        let d = digit_char((n % 10) as int);
        assert(d as nat == '0' as nat + n % 10);
        let s = decimal(n);
        assert(s.drop_last() =~= decimal(n / 10));
        assert(s.last() == d);
        assert(digits_value(s) == (n / 10) * 10 + n % 10);
        assert forall|i: int| 0 <= i < s.len() implies is_digit(#[trigger] s[i]) by {
            if i < s.len() - 1 {
                assert(s[i] == decimal(n / 10)[i]);
            }
        }
    }
}

/// A number that is written down is read back where it is within the bound and not at all beyond
/// it, with or without a sign.
pub proof fn lemma_numbers_read(n: nat, max: nat)
    ensures
        digits_upto(decimal(n), max) == if n <= max {
            Some(n)
        } else {
            None::<nat>
        },
        unsigned_upto(decimal(n), max) == digits_upto(decimal(n), max),
        unsigned_upto(seq!['+'] + decimal(n), max) == digits_upto(decimal(n), max),
        n <= 0x7fff_ffff_ffff_ffff ==> signed_64(decimal(n)) == Some(n as int),
        n <= 0x8000_0000_0000_0000 ==> signed_64(seq!['-'] + decimal(n)) == Some(-(n as int)),
        n > 0x7fff_ffff_ffff_ffff ==> signed_64(decimal(n)) is None,
        n > 0x8000_0000_0000_0000 ==> signed_64(seq!['-'] + decimal(n)) is None,
{
    lemma_decimal_reads_back(n);
    assert(is_digit(decimal(n)[0]));
    assert((seq!['+'] + decimal(n)).skip(1) =~= decimal(n));
    assert((seq!['-'] + decimal(n)).skip(1) =~= decimal(n));
}

/// A text that holds anything but digits is not a number, and neither is an empty one.
pub proof fn lemma_not_a_number(s: Seq<char>, max: nat)
    ensures
        s.len() == 0 ==> digits_upto(s, max) is None && unsigned_upto(s, max) is None && signed_64(
            s,
        ) is None,
        forall|i: int| 0 <= i < s.len() && !is_digit(#[trigger] s[i]) ==> digits_upto(s, max) is None,
        forall|i: int|
            0 < i < s.len() && !is_digit(#[trigger] s[i]) ==> unsigned_upto(s, max) is None
                && signed_64(s) is None,
{
    assert forall|i: int| 0 < i < s.len() && !is_digit(#[trigger] s[i]) implies unsigned_upto(
        s,
        max,
    ) is None && signed_64(s) is None by {
        assert(s.skip(1)[i - 1] == s[i]);
        assert(!all_digits(s.skip(1)));
        assert(!all_digits(s));
    }
}

/// The texts that are left when repetitions are dropped: the same texts, each once, in the order in
/// which each came first.
pub proof fn lemma_first_ones(s: Seq<Seq<char>>, x: Seq<char>)
    ensures
        first_ones(s).no_duplicates(),
        forall|t: Seq<char>| #[trigger] first_ones(s).contains(t) <==> s.contains(t),
        s.contains(x) ==> first_ones(s.push(x)) == first_ones(s),
        !s.contains(x) ==> first_ones(s.push(x)) == first_ones(s).push(x),
    decreases s.len(),
{
    let f = first_ones(s);
    if s.len() > 0 {
        let front = s.drop_last();
        let g = first_ones(front);
        lemma_first_ones(front, s.last());
        assert(front.push(s.last()) =~= s);
        assert forall|t: Seq<char>| #[trigger] f.contains(t) <==> s.contains(t) by {
            if f.contains(t) {
                let k = choose|k: int| 0 <= k < f.len() && f[k] == t;
                if k < g.len() {
                    assert(g[k] == t);
                    assert(g.contains(t));
                    let i = choose|i: int| 0 <= i < front.len() && front[i] == t;
                    assert(s[i] == t);
                } else {
                    assert(s[s.len() - 1] == t);
                }
            }
            if s.contains(t) {
                let i = choose|i: int| 0 <= i < s.len() && s[i] == t;
                if i < front.len() {
                    assert(front[i] == t);
                    assert(front.contains(t));
                    assert(g.contains(t));
                    let k = choose|k: int| 0 <= k < g.len() && g[k] == t;
                    assert(f[k] == t);
                } else if g.contains(t) {
                    let k = choose|k: int| 0 <= k < g.len() && g[k] == t;
                    assert(f[k] == t);
                } else {
                    assert(f[g.len() as int] == t);
                }
            }
        }
        if !g.contains(s.last()) {
            assert forall|i: int, j: int| 0 <= i < f.len() && 0 <= j < f.len() && i != j implies f[i]
                != f[j] by {
                if i < g.len() && j < g.len() {
                } else if i < g.len() {
                    assert(g.contains(g[i]));
                } else {
                    assert(g.contains(g[j]));
                }
            }
        }
    }
    assert(s.push(x).drop_last() =~= s);
    assert(f.contains(x) <==> s.contains(x));
}

/// In lower case every capital letter of ASCII is the small one thirty-two places on, every other
/// character stays, and so does what is in lower case already.
pub proof fn lemma_ascii_lower(s: Seq<char>)
    ensures
        ascii_lower(s).len() == s.len(),
        forall|i: int|
            0 <= i < s.len() && 'A' <= s[i] <= 'Z' ==> (#[trigger] ascii_lower(s)[i]) as int
                == s[i] as int + 32,
        forall|i: int|
            0 <= i < s.len() && !('A' <= s[i] <= 'Z') ==> #[trigger] ascii_lower(s)[i] == s[i],
        ascii_lower(ascii_lower(s)) == ascii_lower(s),
{
    assert forall|i: int| 0 <= i < s.len() implies #[trigger] ascii_lower(ascii_lower(s))[i]
        == ascii_lower(s)[i] by {
        let c = s[i];
        let d = ascii_lower_char(c);
        assert(ascii_lower(s)[i] == d);
        if 'A' <= c <= 'Z' {
            assert(d as int == c as int + 32);
        }
    }
    assert(ascii_lower(ascii_lower(s)) =~= ascii_lower(s));
}

/// A text takes as many bytes as its parts take together, and a character from one to four.
pub proof fn lemma_byte_len(a: Seq<char>, b: Seq<char>)
    ensures
        byte_len(a + b) == byte_len(a) + byte_len(b),
        a.len() <= byte_len(a) <= 4 * a.len(),
        (forall|i: int| 0 <= i < a.len() ==> #[trigger] a[i] <= '\u{7f}') ==> byte_len(a) == a.len(),
        (forall|i: int| 0 <= i < a.len() ==> #[trigger] a[i] > '\u{7f}') ==> byte_len(a) >= 2
            * a.len(),
        (forall|i: int| 0 <= i < a.len() ==> '\u{7f}' < #[trigger] a[i] <= '\u{7ff}') ==> byte_len(a)
            == 2 * a.len(),
        (forall|i: int| 0 <= i < a.len() ==> '\u{7ff}' < #[trigger] a[i] <= '\u{ffff}') ==> byte_len(
            a,
        ) == 3 * a.len(),
        (forall|i: int| 0 <= i < a.len() ==> #[trigger] a[i] > '\u{ffff}') ==> byte_len(a) == 4
            * a.len(),
    decreases a.len() + b.len(),
{
    if b.len() > 0 {
        lemma_byte_len(a, b.drop_last());
        assert((a + b).drop_last() =~= a + b.drop_last());
    } else {
        assert(a + b =~= a);
        if a.len() > 0 {
            let front = a.drop_last();
            lemma_byte_len(front, b);
            assert(a[a.len() - 1] == a.last());
            assert forall|i: int| 0 <= i < front.len() implies front[i] == #[trigger] a[i] by {}
        }
    }
}

/// The sixteen digits by which bytes are written.
pub proof fn lemma_hex_digits(bytes: Seq<u8>, i: int)
    requires
        0 <= i < bytes.len(),
    ensures
        hex(bytes).len() == 2 * bytes.len(),
        ({
            let high = hex(bytes)[2 * i];
            let low = hex(bytes)[2 * i + 1];
            let h = if high <= '9' {
                high as int - '0' as int
            } else {
                high as int - 'a' as int + 10
            };
            let l = if low <= '9' {
                low as int - '0' as int
            } else {
                low as int - 'a' as int + 10
            };
            &&& bytes[i] == 16 * h + l
            &&& 0 <= h < 16 && 0 <= l < 16
            &&& '0' <= high <= '9' || 'a' <= high <= 'f'
            &&& '0' <= low <= '9' || 'a' <= low <= 'f'
        }),
{
    let b = bytes[i] as int;
    assert((2 * i) / 2 == i && (2 * i) % 2 == 0);
    assert((2 * i + 1) / 2 == i && (2 * i + 1) % 2 == 1);
    assert(hex(bytes)[2 * i] == hex_char(b / 16));
    assert(hex(bytes)[2 * i + 1] == hex_char(b % 16));
    assert(0 <= b / 16 < 16 && 0 <= b % 16 < 16);
}

/// Without wildcards a text keeps its other characters, in their order.
pub proof fn lemma_without_wildcards(a: Seq<char>, c: char, b: Seq<char>)
    ensures
        c == '%' || c == '_' ==> without_wildcards(a.push(c) + b) == without_wildcards(a + b),
        !a.contains('%') && !a.contains('_') ==> without_wildcards(a) == a,
{
    let keep = |c: char| c != '%' && c != '_';
    Seq::filter_distributes_over_add(a.push(c), b, keep);
    Seq::filter_distributes_over_add(a, b, keep);
    reveal(Seq::filter);
    assert(a.push(c).drop_last() =~= a);
    if !a.contains('%') && !a.contains('_') {
        lemma_nothing_dropped(a);
    }
}

proof fn lemma_nothing_dropped(a: Seq<char>)
    requires
        !a.contains('%') && !a.contains('_'),
    ensures
        without_wildcards(a) == a,
    decreases a.len(),
{
    reveal(Seq::filter);
    if a.len() > 0 {
        assert forall|c: char| #[trigger] a.drop_last().contains(c) implies a.contains(c) by {
            let k = choose|k: int| 0 <= k < a.drop_last().len() && a.drop_last()[k] == c;
            assert(a[k] == c);
        }
        lemma_nothing_dropped(a.drop_last());
        assert(a[a.len() - 1] == a.last());
        assert(a.contains(a.last()));
        assert(a.drop_last().push(a.last()) =~= a);
    } else {
        assert(without_wildcards(a) =~= a);
    }
}

/// Texts that are joined stand in their order with the separator between each two.
pub proof fn lemma_joined(first: Seq<char>, rest: Seq<Seq<char>>, sep: Seq<char>)
    ensures
        joined(Seq::empty(), sep).len() == 0,
        joined(seq![first], sep) == first,
        rest.len() > 0 ==> joined(seq![first] + rest, sep) == first + sep + joined(rest, sep),
    decreases rest.len(),
{
    if rest.len() > 0 {
        let all = seq![first] + rest;
        let front = rest.drop_last();
        lemma_joined(first, front, sep);
        assert(all.drop_last() =~= seq![first] + front);
        assert(all.last() == rest.last());
        if front.len() == 0 {
            assert(all.drop_last() =~= seq![first]);
            assert(joined(rest, sep) == rest[0]);
        } else {
            assert(joined(all, sep) =~= first + sep + joined(rest, sep));
        }
    }
}

/// What is left of a text after trimming neither starts nor ends with white space, and is all of
/// the text but white space around it.
pub proof fn lemma_trimmed_ends(s: Seq<char>)
    ensures
        trimmed(s).len() > 0 ==> !is_space(trimmed(s)[0]) && !is_space(trimmed(s).last()),
        exists|a: Seq<char>, b: Seq<char>| s == #[trigger] (a + trimmed(s) + b),
{
    let t = trimmed_start(s);
    let a = lemma_start_taken(s);
    let b = lemma_end_taken(t);
    assert(s =~= a + trimmed(s) + b);
    if trimmed(s).len() > 0 {
        assert(t[0] == trimmed(s)[0]);
    }
}

proof fn lemma_start_taken(s: Seq<char>) -> (a: Seq<char>)
    ensures
        s == a + trimmed_start(s),
        trimmed_start(s).len() > 0 ==> !is_space(trimmed_start(s)[0]),
    decreases s.len(),
{
    if s.len() > 0 && is_space(s[0]) {
        let a = lemma_start_taken(s.skip(1));
        assert(s =~= seq![s[0]] + s.skip(1));
        assert(s =~= (seq![s[0]] + a) + trimmed_start(s));
        seq![s[0]] + a
    } else {
        assert(s =~= Seq::<char>::empty() + s);
        Seq::empty()
    }
}

proof fn lemma_end_taken(s: Seq<char>) -> (b: Seq<char>)
    ensures
        s == trimmed_end(s) + b,
        trimmed_end(s).len() > 0 ==> !is_space(trimmed_end(s).last()),
    decreases s.len(),
{
    if s.len() > 0 && is_space(s.last()) {
        let b = lemma_end_taken(s.drop_last());
        assert(s =~= s.drop_last().push(s.last()));
        assert(s =~= trimmed_end(s) + b.push(s.last()));
        b.push(s.last())
    } else {
        assert(s =~= s + Seq::<char>::empty());
        Seq::empty()
    }
}

/// The number that a text of hexadecimal digits stands for.
pub open spec fn hex_value(s: Seq<char>) -> nat
    decreases s.len(),
{
    if s.len() == 0 {
        0
    } else {
        16 * hex_value(s.drop_last()) + if s.last() <= '9' {
            (s.last() as nat - '0' as nat) as nat
        } else {
            (s.last() as nat - 'a' as nat + 10) as nat
        }
    }
}

/// A number in hexadecimal digits reads back as itself, and has no zero in front.
pub proof fn lemma_hex_number(n: nat)
    ensures
        hex_value(hex_number(n)) == n,
        hex_number(n).len() > 0,
        n > 0 ==> hex_number(n)[0] != '0',
        all_hex(hex_number(n)),
    decreases n,
{
    let s = hex_number(n);
    let d = n % 16;
    let c = hex_char(d as int);
    assert(0 <= d < 16);
    assert(c <= '9' ==> c as nat == '0' as nat + d);
    assert(c > '9' ==> c as nat == 'a' as nat + d - 10);
    assert(is_hex_digit(c));
    if n < 16 {
        assert(s == seq![c]);
        assert(s.drop_last() =~= Seq::<char>::empty());
        assert(hex_value(s.drop_last()) == 0);
        assert(s.last() == c);
    } else {
        lemma_hex_number(n / 16);
        let front = hex_number(n / 16);
        assert(s.drop_last() =~= front);
        assert(s.last() == c);
        assert forall|i: int| 0 <= i < s.len() implies is_hex_digit(#[trigger] s[i]) by {
            if i < front.len() {
                assert(s[i] == front[i]);
                assert(is_hex_digit(front[i]));
            }
        }
    }
}

/// Texts that are put together have as many places for values as each of them.
pub proof fn lemma_marks_add(a: Seq<char>, b: Seq<char>)
    ensures
        question_marks(a + b) == question_marks(a) + question_marks(b),
    decreases b.len(),
{
    if b.len() == 0 {
        assert(a + b =~= a);
    } else {
        lemma_marks_add(a, b.drop_last());
        assert((a + b).drop_last() =~= a + b.drop_last());
        assert((a + b).last() == b.last());
    }
}

/// The number of places for a value in a query.
pub open spec fn question_marks(s: Seq<char>) -> nat
    decreases s.len(),
{
    if s.len() == 0 {
        0
    } else {
        question_marks(s.drop_last()) + if s.last() == '?' {
            1nat
        } else {
            0
        }
    }
}

/// A text that only ends with a place for a value has one.
pub proof fn lemma_one_mark_last(s: Seq<char>)
    requires
        s.len() > 0,
        s.last() == '?',
        forall|i: int| 0 <= i < s.len() - 1 ==> #[trigger] s[i] != '?',
    ensures
        question_marks(s) == 1,
{
    lemma_no_mark(s.drop_last());
}

/// A text without the mark has no place for a value.
pub proof fn lemma_no_mark(s: Seq<char>)
    requires
        forall|i: int| 0 <= i < s.len() ==> #[trigger] s[i] != '?',
    ensures
        question_marks(s) == 0,
    decreases s.len(),
{
    if s.len() > 0 {
        assert(s[s.len() - 1] != '?');
        assert forall|i: int| 0 <= i < s.drop_last().len() implies #[trigger] s.drop_last()[i]
            != '?' by {
            assert(s[i] != '?');
        }
        lemma_no_mark(s.drop_last());
    }
}

/// The white space of ASCII: the space and the five controls from the tabulator to the carriage
/// return.
pub proof fn lemma_ascii_space(c: char)
    requires
        c <= '\u{7f}',
    ensures
        is_space(c) <==> c == ' ' || c == '\t' || c == '\n' || c == '\r' || c == '\u{b}' || c
            == '\u{c}',
{
}

} // verus!
