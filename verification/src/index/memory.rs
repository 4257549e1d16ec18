//! Notes on a project: their tags, how they are looked up, and how many are kept.

use crate::order::{
    dedup, in_order, is_weak_order, lemma_merged_distinct, lemma_ranked_contains,
    lemma_ranked_in_order, merged, ranked, sorted, Merged, Ranked,
};
use crate::text::{
    chars_of, comes_before, contains_text, decimal, first_ones, has_text, hex_number,
    hex_number_text, is_space, join, joined, lemma_before_irreflexive, lemma_before_total,
    lemma_before_transitive, lemma_split_concat, lemma_split_single, opt_text, parse_unsigned,
    same_text, split, split_at_each, split_whitespace, text_before, text_of, trim, trimmed,
    trimmed_end, trimmed_start, unique_texts, unsigned_upto, views, words,
};
use vstd::prelude::*;

verus! {

/// The most notes that are kept of a project, unless a setting says otherwise.
pub const DEFAULT_MAX_NOTES: usize = 1000;

/// The setting for the most notes that are kept; 0 keeps them all.
pub const MAX_NOTES_ENV: &'static str = "SEMANTEX_MEMORY_MAX_NOTES";

/// The source that every note gets.
pub const NOTE_SOURCE: &'static str = "agent";

/// How often a note is tried with a new key.
pub const MAX_SAVE_ATTEMPTS: u32 = 5;

/// A note.
#[derive(Debug, Clone)]
pub struct Note {
    pub id: i64,
    /// When it was written, in seconds since 1970.
    pub created_ts: i64,
    pub updated_ts: i64,
    /// What it is about; any text, such as `global` or `file:` and a path.
    pub scope: String,
    pub content: String,
    pub tags: Vec<String>,
    pub source: String,
}

/// What a [`Note`] holds.
pub struct NoteView {
    pub id: i64,
    pub created_ts: i64,
    pub updated_ts: i64,
    pub scope: Seq<char>,
    pub content: Seq<char>,
    pub tags: Seq<Seq<char>>,
    pub source: Seq<char>,
}

impl View for Note {
    type V = NoteView;

    open spec fn view(&self) -> NoteView {
        NoteView {
            id: self.id,
            created_ts: self.created_ts,
            updated_ts: self.updated_ts,
            scope: self.scope@,
            content: self.content@,
            tags: views(self.tags@),
            source: self.source@,
        }
    }
}

impl Ranked for String {
    open spec fn before(a: Seq<char>, b: Seq<char>) -> bool {
        text_before(a, b)
    }

    fn goes_before(&self, other: &Self) -> (r: bool) {
        comes_before(self, other)
    }
}

impl Merged for String {
    open spec fn same(a: Seq<char>, b: Seq<char>) -> bool {
        a == b
    }

    fn is_same(&self, other: &Self) -> (r: bool) {
        same_text(self, other)
    }
}

/// The tags without white space around them; those that are nothing else are left out.
pub open spec fn clean_tags(tags: Seq<Seq<char>>) -> Seq<Seq<char>>
    decreases tags.len(),
{
    if tags.len() == 0 {
        Seq::empty()
    } else if trimmed(tags.last()).len() == 0 {
        clean_tags(tags.drop_last())
    } else {
        clean_tags(tags.drop_last()).push(trimmed(tags.last()))
    }
}

fn cleaned(tags: &Vec<String>) -> (r: Vec<String>)
    ensures
        views(r@) == clean_tags(views(tags@)),
{
    let ghost all = views(tags@);
    let mut r: Vec<String> = Vec::new();
    let mut i: usize = 0;
    proof {
        assert(views(r@) =~= clean_tags(all.take(0)));
    }
    while i < tags.len()
        invariant
            i <= tags@.len(),
            all == views(tags@),
            views(r@) == clean_tags(all.take(i as int)),
        decreases tags@.len() - i,
    {
        let ghost shown = views(r@);
        proof {
            assert(all.take(i + 1).drop_last() =~= all.take(i as int));
            assert(all.take(i + 1).last() == tags@[i as int]@);
        }
        let t: String = trim(&tags[i]);
        if t.as_str().unicode_len() > 0 {
            let ghost tv = t@;
            r.push(t);
            proof {
                assert(views(r@) =~= shown.push(tv));
            }
        }
        i = i + 1;
    }
    proof {
        assert(all.take(i as int) =~= all);
    }
    r
}

/// The tags in a text, with commas between them.
pub open spec fn tags_in(raw: Seq<char>) -> Seq<Seq<char>> {
    clean_tags(split_at_each(raw, ','))
}

/// The tags in a text, with commas between them.
pub fn parse_tags(raw: &str) -> (r: Vec<String>)
    ensures
        views(r@) == tags_in(raw@),
{
    cleaned(&split(raw, ','))
}

/// The tags as they are stored: clean, in order, and each once.
pub open spec fn normal_tags(tags: Seq<Seq<char>>) -> Seq<Seq<char>> {
    merged::<String>(ranked::<String>(clean_tags(tags)))
}

/// The text that stands for tags.
pub fn format_tags(tags: &Vec<String>) -> (r: String)
    ensures
        r@ == joined(normal_tags(views(tags@)), ","@),
{
    join(&dedup(sorted(cleaned(tags))), ",")
}

proof fn lemma_text_order()
    ensures
        is_weak_order::<String>(),
{
    assert forall|a: Seq<char>, b: Seq<char>| #[trigger] <String as Ranked>::before(
        a,
        b,
    ) implies !<String as Ranked>::before(b, a) by {
        if text_before(b, a) {
            lemma_before_transitive(a, b, a);
            lemma_before_irreflexive(a);
        }
    }
    assert forall|a: Seq<char>, b: Seq<char>, c: Seq<char>|
        !(#[trigger] <String as Ranked>::before(a, b)) && !(
        #[trigger] <String as Ranked>::before(b, c)) implies !<String as Ranked>::before(
        a,
        c,
    ) by {
        lemma_before_total(a, b);
        if text_before(a, c) && text_before(b, a) {
            lemma_before_transitive(b, a, c);
        }
    }
}

/// Each text comes before all that follow it.
pub open spec fn increasing(s: Seq<Seq<char>>) -> bool {
    forall|i: int, j: int| 0 <= i < j < s.len() ==> text_before(#[trigger] s[i], #[trigger] s[j])
}

proof fn lemma_merged_increasing(s: Seq<Seq<char>>)
    requires
        in_order::<String>(s),
    ensures
        increasing(merged::<String>(s)),
        s.len() > 0 ==> merged::<String>(s).len() > 0 && merged::<String>(s).last() == s.last(),
        forall|x: Seq<char>| s.contains(x) ==> #[trigger] merged::<String>(s).contains(x),
    decreases s.len(),
{
    if s.len() > 0 {
        let front = s.drop_last();
        let r = merged::<String>(front);
        let m = merged::<String>(s);
        assert(in_order::<String>(front)) by {
            assert forall|i: int, j: int| 0 <= i < j < front.len() implies !<String as Ranked>::before(
                #[trigger] front[j],
                #[trigger] front[i],
            ) by {
                assert(!<String as Ranked>::before(s[j], s[i]));
            }
        }
        lemma_merged_increasing(front);
        if m.len() > r.len() && r.len() > 0 {
            assert(!<String as Ranked>::before(s[s.len() - 1], s[front.len() - 1]));
            lemma_before_total(r.last(), s.last());
            assert forall|i: int, j: int| 0 <= i < j < m.len() implies text_before(
                #[trigger] m[i],
                #[trigger] m[j],
            ) by {
                if j == r.len() {
                    if i < r.len() - 1 {
                        assert(text_before(r[i], r[r.len() - 1]));
                        lemma_before_transitive(m[i], r.last(), s.last());
                    }
                } else {
                    assert(text_before(r[i], r[j]));
                }
            }
        }
        assert forall|x: Seq<char>| s.contains(x) implies #[trigger] m.contains(x) by {
            let k = choose|k: int| 0 <= k < s.len() && s[k] == x;
            if k < front.len() {
                assert(front[k] == x);
                assert(front.contains(x));
                assert(r.contains(x));
                let n = choose|n: int| 0 <= n < r.len() && r[n] == x;
                assert(m[n] == x);
            } else {
                assert(m[m.len() - 1] == x);
            }
        }
    }
}

/// The tags that are stored are in order, none twice, and are the clean tags and no others.
pub proof fn lemma_normal_tags(tags: Seq<Seq<char>>)
    ensures
        increasing(normal_tags(tags)),
        normal_tags(tags).no_duplicates(),
        forall|x: Seq<char>| #[trigger]
            normal_tags(tags).contains(x) <==> clean_tags(tags).contains(x),
{
    let c = clean_tags(tags);
    let r = ranked::<String>(c);
    let n = normal_tags(tags);
    lemma_text_order();
    lemma_ranked_in_order::<String>(c);
    lemma_merged_increasing(r);
    lemma_merged_distinct::<String>(r);
    assert forall|i: int, j: int| 0 <= i < n.len() && 0 <= j < n.len() && i != j implies n[i]
        != n[j] by {
        lemma_before_irreflexive(n[i]);
        if i < j {
            assert(text_before(n[i], n[j]));
        } else {
            assert(text_before(n[j], n[i]));
        }
    }
    assert forall|x: Seq<char>| #[trigger] n.contains(x) <==> c.contains(x) by {
        lemma_ranked_contains::<String>(c, x);
    }
}

proof fn lemma_trimmed_start(s: Seq<char>)
    ensures
        trimmed_start(s).len() <= s.len(),
        trimmed_start(s) == s.skip(s.len() - trimmed_start(s).len()),
        trimmed_start(s).len() > 0 ==> !is_space(trimmed_start(s)[0]),
    decreases s.len(),
{
    if s.len() > 0 && is_space(s[0]) {
        lemma_trimmed_start(s.skip(1));
        let t = trimmed_start(s);
        assert(s.skip(1).skip(s.len() - 1 - t.len()) =~= s.skip(s.len() - t.len()));
    } else {
        assert(s.skip(0) =~= s);
    }
}

proof fn lemma_trimmed_end(s: Seq<char>)
    ensures
        trimmed_end(s).len() <= s.len(),
        trimmed_end(s) == s.take(trimmed_end(s).len() as int),
        trimmed_end(s).len() > 0 ==> !is_space(trimmed_end(s).last()),
    decreases s.len(),
{
    if s.len() > 0 && is_space(s.last()) {
        lemma_trimmed_end(s.drop_last());
        let t = trimmed_end(s);
        assert(s.drop_last().take(t.len() as int) =~= s.take(t.len() as int));
    } else {
        assert(s.take(s.len() as int) =~= s);
    }
}

/// To trim a text again changes nothing, and trimming brings in no character.
proof fn lemma_trimmed(s: Seq<char>)
    ensures
        trimmed(trimmed(s)) == trimmed(s),
        forall|c: char| #[trigger] trimmed(s).contains(c) ==> s.contains(c),
{
    let a = trimmed_start(s);
    let t = trimmed(s);
    lemma_trimmed_start(s);
    lemma_trimmed_end(a);
    if t.len() > 0 {
        assert(t[0] == a[0]);
        assert(trimmed_start(t) == t);
        assert(trimmed_end(t) == t);
    }
    assert forall|c: char| #[trigger] t.contains(c) implies s.contains(c) by {
        let k = choose|k: int| 0 <= k < t.len() && t[k] == c;
        assert(a[k] == c);
        assert(s[s.len() - a.len() + k] == c);
    }
}

proof fn lemma_clean_tags(tags: Seq<Seq<char>>)
    ensures
        forall|x: Seq<char>| #[trigger]
            clean_tags(tags).contains(x) ==> x.len() > 0 && trimmed(x) == x && exists|i: int|
                0 <= i < tags.len() && x == trimmed(#[trigger] tags[i]),
    decreases tags.len(),
{
    if tags.len() > 0 {
        let front = tags.drop_last();
        let c = clean_tags(tags);
        let f = clean_tags(front);
        lemma_clean_tags(front);
        lemma_trimmed(tags.last());
        assert forall|x: Seq<char>| #[trigger] c.contains(x) implies x.len() > 0 && trimmed(x) == x
            && exists|i: int| 0 <= i < tags.len() && x == trimmed(#[trigger] tags[i]) by {
            let k = choose|k: int| 0 <= k < c.len() && c[k] == x;
            if k < f.len() {
                assert(f[k] == x);
                assert(f.contains(x));
                let i = choose|i: int| 0 <= i < front.len() && x == trimmed(#[trigger] front[i]);
                assert(x == trimmed(tags[i]));
            } else {
                assert(x == trimmed(tags[tags.len() - 1]));
            }
        }
    }
}

proof fn lemma_clean_again(tags: Seq<Seq<char>>)
    requires
        forall|i: int|
            0 <= i < tags.len() ==> (#[trigger] tags[i]).len() > 0 && trimmed(tags[i]) == tags[i],
    ensures
        clean_tags(tags) == tags,
    decreases tags.len(),
{
    if tags.len() > 0 {
        assert forall|i: int| 0 <= i < tags.drop_last().len() implies (
        #[trigger] tags.drop_last()[i]).len() > 0 && trimmed(tags.drop_last()[i])
            == tags.drop_last()[i] by {
            assert(tags.drop_last()[i] == tags[i]);
        }
        lemma_clean_again(tags.drop_last());
        assert(tags[tags.len() - 1] == tags.last());
        assert(tags.drop_last().push(tags.last()) =~= tags);
    } else {
        assert(clean_tags(tags) =~= tags);
    }
}

proof fn lemma_split_joined(parts: Seq<Seq<char>>, sep: char)
    requires
        parts.len() > 0,
        forall|i: int| 0 <= i < parts.len() ==> !(#[trigger] parts[i]).contains(sep),
    ensures
        split_at_each(joined(parts, seq![sep]), sep) == parts,
    decreases parts.len(),
{
    assert(!parts[parts.len() - 1].contains(sep));
    lemma_split_single(parts.last(), sep);
    if parts.len() == 1 {
        assert(seq![parts.last()] =~= parts);
    } else {
        let front = parts.drop_last();
        assert forall|i: int| 0 <= i < front.len() implies !(#[trigger] front[i]).contains(
            sep,
        ) by {
            assert(front[i] == parts[i]);
        }
        lemma_split_joined(front, sep);
        let j = joined(front, seq![sep]);
        assert(j + seq![sep] + parts.last() =~= j.push(sep) + parts.last());
        lemma_split_concat(j, parts.last(), sep);
        assert(front + seq![parts.last()] =~= parts);
    }
}

/// What is read from the text that stands for tags are the tags that were stored, as long as no tag
/// holds a comma.
pub proof fn lemma_tags_round_trip(tags: Seq<Seq<char>>)
    requires
        forall|i: int| 0 <= i < tags.len() ==> !(#[trigger] tags[i]).contains(','),
    ensures
        tags_in(joined(normal_tags(tags), ","@)) == normal_tags(tags),
{
    reveal_strlit(",");
    assert(","@ =~= seq![',']);
    let n = normal_tags(tags);
    lemma_normal_tags(tags);
    lemma_clean_tags(tags);
    assert forall|k: int| 0 <= k < n.len() implies (#[trigger] n[k]).len() > 0 && trimmed(n[k])
        == n[k] && !n[k].contains(',') by {
        assert(n.contains(n[k]));
        assert(clean_tags(tags).contains(n[k]));
        let i = choose|i: int| 0 <= i < tags.len() && n[k] == trimmed(#[trigger] tags[i]);
        lemma_trimmed(tags[i]);
        assert(!tags[i].contains(','));
    }
    lemma_clean_again(n);
    if n.len() > 0 {
        lemma_split_joined(n, ',');
    } else {
        let e = joined(n, ","@);
        assert(e =~= Seq::<char>::empty());
        lemma_split_single(e, ',');
        assert(clean_tags(seq![e].drop_last()) =~= Seq::<Seq<char>>::empty());
        lemma_trimmed(e);
        assert(clean_tags(seq![e]) =~= n);
    }
}

/// The most notes that are kept, given the setting `SEMANTEX_MEMORY_MAX_NOTES`: 1000 unless it is a
/// number.
pub open spec fn notes_cap(setting: Option<Seq<char>>) -> nat {
    match setting {
        Some(s) => match unsigned_upto(trimmed(s), usize::MAX as nat) {
            Some(n) => n,
            None => DEFAULT_MAX_NOTES as nat,
        },
        None => DEFAULT_MAX_NOTES as nat,
    }
}

/// The most notes that are kept, given the setting `SEMANTEX_MEMORY_MAX_NOTES`.
pub fn max_notes(setting: Option<&str>) -> (r: usize)
    ensures
        r == notes_cap(
            match setting {
                Some(s) => Some(s@),
                None => None,
            },
        ),
{
    match setting {
        Some(s) => match parse_unsigned(&trim(s), usize::MAX as u64) {
            Some(n) => n as usize,
            None => DEFAULT_MAX_NOTES,
        },
        None => DEFAULT_MAX_NOTES,
    }
}

/// How many of the oldest notes are removed when there are `count`: those beyond the cap, and none
/// where the cap is 0.
pub open spec fn overflow_of(count: int, cap: nat) -> int {
    if cap == 0 || count <= cap {
        0
    } else {
        count - cap
    }
}

/// How many of the oldest notes are removed when there are `count`.
pub fn enforce_cap(count: i64, cap: usize) -> (r: i64)
    ensures
        r == overflow_of(count as int, cap as nat),
{
    if cap == 0 || count <= 0 {
        return 0;
    }
    let n: u64 = count as u64;
    if n <= cap as u64 {
        0
    } else {
        (n - cap as u64) as i64
    }
}

/// With a cap, at most that many notes are left, and none goes while there are no more; without
/// one, none ever goes.
pub proof fn lemma_cap(count: nat, cap: nat)
    ensures
        0 <= overflow_of(count as int, cap) <= count,
        cap > 0 ==> count - overflow_of(count as int, cap) == if count < cap {
            count
        } else {
            cap
        },
        cap == 0 ==> overflow_of(count as int, cap) == 0,
{
}

/// A text with every quotation mark doubled.
pub open spec fn quotes_doubled(s: Seq<char>) -> Seq<char>
    decreases s.len(),
{
    if s.len() == 0 {
        Seq::empty()
    } else if s.last() == '"' {
        quotes_doubled(s.drop_last()).push('"').push('"')
    } else {
        quotes_doubled(s.drop_last()).push(s.last())
    }
}

/// A word as a quoted string of the full-text query language.
pub open spec fn quoted(s: Seq<char>) -> Seq<char> {
    "\""@ + quotes_doubled(s) + "\""@
}

/// A word as a quoted string of the full-text query language, in which no character is an operator.
pub fn escape_fts5_token(token: &str) -> (r: String)
    ensures
        r@ == quoted(token@),
{
    let v: Vec<char> = chars_of(token);
    let mut out: Vec<char> = Vec::new();
    let mut i: usize = 0;
    proof {
        assert(out@ =~= quotes_doubled(v@.take(0)));
    }
    while i < v.len()
        invariant
            i <= v@.len(),
            out@ == quotes_doubled(v@.take(i as int)),
        decreases v@.len() - i,
    {
        proof {
            assert(v@.take(i + 1).drop_last() =~= v@.take(i as int));
        }
        if v[i] == '"' {
            out.push('"');
            out.push('"');
        } else {
            out.push(v[i]);
        }
        i = i + 1;
    }
    proof {
        assert(v@.take(i as int) =~= v@);
    }
    "\"".to_owned().concat(&text_of(&out)).concat("\"")
}

/// The number of quotation marks in a text.
pub open spec fn quotes_in(s: Seq<char>) -> nat
    decreases s.len(),
{
    if s.len() == 0 {
        0
    } else {
        quotes_in(s.drop_last()) + if s.last() == '"' {
            1nat
        } else {
            0
        }
    }
}

/// Doubling the quotation marks doubles their number and nothing else.
pub proof fn lemma_quotes_doubled(s: Seq<char>)
    ensures
        quotes_in(quotes_doubled(s)) == 2 * quotes_in(s),
        quotes_doubled(s).len() == s.len() + quotes_in(s),
    decreases s.len(),
{
    if s.len() > 0 {
        let q = quotes_doubled(s.drop_last());
        lemma_quotes_doubled(s.drop_last());
        if s.last() == '"' {
            assert(q.push('"').push('"').drop_last() =~= q.push('"'));
            assert(q.push('"').drop_last() =~= q);
            reveal_with_fuel(quotes_in, 3);
        } else {
            assert(q.push(s.last()).drop_last() =~= q);
        }
    }
}

/// The words, each quoted.
pub open spec fn quoted_words(ws: Seq<Seq<char>>) -> Seq<Seq<char>> {
    Seq::new(ws.len(), |i: int| quoted(ws[i]))
}

/// A full-text query that any of the words of `query` meets; `None` where it has none.
pub fn build_match_query(query: &str) -> (r: Option<String>)
    ensures
        opt_text(r) == (if words(query@).len() == 0 {
            None
        } else {
            Some(joined(quoted_words(words(query@)), " OR "@))
        }),
{
    let ws: Vec<String> = split_whitespace(query);
    proof {
        assert(views(ws@).len() == ws@.len());
    }
    if ws.len() == 0 {
        return None;
    }
    let mut tokens: Vec<String> = Vec::new();
    let mut i: usize = 0;
    while i < ws.len()
        invariant
            i <= ws@.len(),
            tokens@.len() == i,
            forall|k: int| 0 <= k < i ==> (#[trigger] tokens@[k])@ == quoted(ws@[k]@),
        decreases ws@.len() - i,
    {
        tokens.push(escape_fts5_token(&ws[i]));
        i = i + 1;
    }
    proof {
        assert(views(tokens@) =~= quoted_words(words(query@)));
    }
    Some(join(&tokens, " OR "))
}

/// Why a note is refused.
#[derive(Debug, Clone, Copy, PartialEq, Eq, Structural)]
pub enum NoteError {
    EmptyContent,
    EmptyScope,
}

impl NoteError {
    /// The error in words.
    pub fn message(&self) -> (r: String)
        ensures
            r@ == (match *self {
                NoteError::EmptyContent => "memory note content must not be empty"@,
                NoteError::EmptyScope => "memory note scope must not be empty"@,
            }),
    {
        match self {
            NoteError::EmptyContent => "memory note content must not be empty".to_owned(),
            NoteError::EmptyScope => "memory note scope must not be empty".to_owned(),
        }
    }
}

/// A note as it is stored, but for its id and its key.
#[derive(Debug, Clone)]
pub struct NoteRow {
    pub ts: i64,
    pub scope: String,
    pub content: String,
    pub source: String,
    pub tags: String,
}

/// What a [`NoteRow`] holds.
pub struct NoteRowView {
    pub ts: i64,
    pub scope: Seq<char>,
    pub content: Seq<char>,
    pub source: Seq<char>,
    pub tags: Seq<char>,
}

impl View for NoteRow {
    type V = NoteRowView;

    open spec fn view(&self) -> NoteRowView {
        NoteRowView {
            ts: self.ts,
            scope: self.scope@,
            content: self.content@,
            source: self.source@,
            tags: self.tags@,
        }
    }
}

/// What is stored of a note: content and scope without white space around them, and its tags in
/// order; or why it is refused.
pub open spec fn stored_note(
    content: Seq<char>,
    scope: Seq<char>,
    tags: Seq<Seq<char>>,
    now: i64,
) -> Result<NoteRowView, NoteError> {
    if trimmed(content).len() == 0 {
        Err(NoteError::EmptyContent)
    } else if trimmed(scope).len() == 0 {
        Err(NoteError::EmptyScope)
    } else {
        Ok(
            NoteRowView {
                ts: now,
                scope: trimmed(scope),
                content: trimmed(content),
                source: NOTE_SOURCE@,
                tags: joined(normal_tags(tags), ","@),
            },
        )
    }
}

/// What is stored of a note, or why it is refused.
pub fn save(content: &str, scope: &str, tags: &Vec<String>, now: i64) -> (r: Result<
    NoteRow,
    NoteError,
>)
    ensures
        (match r {
            Ok(row) => Ok(row@),
            Err(e) => Err(e),
        }) == stored_note(content@, scope@, views(tags@), now),
{
    let content: String = trim(content);
    if content.as_str().unicode_len() == 0 {
        return Err(NoteError::EmptyContent);
    }
    let scope: String = trim(scope);
    if scope.as_str().unicode_len() == 0 {
        return Err(NoteError::EmptyScope);
    }
    Ok(
        NoteRow {
            ts: now,
            scope,
            content,
            source: NOTE_SOURCE.to_owned(),
            tags: format_tags(tags),
        },
    )
}

/// The note that a row of the database stands for.
pub open spec fn note_of(
    id: i64,
    created_ts: i64,
    updated_ts: i64,
    scope: Seq<char>,
    content: Seq<char>,
    tags: Seq<char>,
    source: Seq<char>,
) -> NoteView {
    NoteView { id, created_ts, updated_ts, scope, content, tags: tags_in(tags), source }
}

/// The note that a row of the database stands for.
pub fn row_to_note(
    id: i64,
    created_ts: i64,
    updated_ts: i64,
    scope: String,
    content: String,
    tags: &str,
    source: String,
) -> (r: Note)
    ensures
        r@ == note_of(id, created_ts, updated_ts, scope@, content@, tags@, source@),
{
    Note { id, created_ts, updated_ts, scope, content, tags: parse_tags(tags), source }
}

/// What is read back of a note is what was written: content and scope without white space around
/// them, and the tags in order, none twice, as long as none holds a comma.
pub proof fn lemma_note_round_trip(
    content: Seq<char>,
    scope: Seq<char>,
    tags: Seq<Seq<char>>,
    now: i64,
    id: i64,
)
    requires
        trimmed(content).len() > 0,
        trimmed(scope).len() > 0,
        forall|i: int| 0 <= i < tags.len() ==> !(#[trigger] tags[i]).contains(','),
    ensures
        stored_note(content, scope, tags, now) is Ok,
        ({
            let row = stored_note(content, scope, tags, now)->Ok_0;
            note_of(id, row.ts, row.ts, row.scope, row.content, row.tags, row.source) == (NoteView {
                id,
                created_ts: now,
                updated_ts: now,
                scope: trimmed(scope),
                content: trimmed(content),
                tags: normal_tags(tags),
                source: NOTE_SOURCE@,
            })
        }),
{
    lemma_tags_round_trip(tags);
}

/// The key of a note: the time in nanoseconds, a counter and the process, in hexadecimal.
pub fn generate_key(nanos: u128, counter: u64, pid: u32) -> (r: String)
    ensures
        r@ == hex_number(nanos as nat) + "-"@ + hex_number(counter as nat) + "-"@ + hex_number(
            pid as nat,
        ),
{
    hex_number_text(nanos).concat("-").concat(&hex_number_text(counter as u128)).concat(
        "-",
    ).concat(&hex_number_text(pid as u128))
}

/// How it went to write a note.
#[derive(Debug, Clone, Copy, PartialEq, Eq, Structural)]
pub enum InsertOutcome {
    Inserted,
    /// Its key is taken.
    KeyTaken,
    Failed,
}

/// What follows.
#[derive(Debug, Clone, Copy, PartialEq, Eq, Structural)]
pub enum SaveStep {
    /// The note is there; the cap is enforced.
    Done,
    /// It is tried again with a new key.
    Retry,
    /// Too many keys were taken.
    GiveUp,
    Fail,
}

/// What follows the attempt number `attempt`, counted from 1.
pub fn after_insert(attempt: u32, outcome: InsertOutcome) -> (r: SaveStep)
    ensures
        r == step_after(attempt, outcome),
{
    match outcome {
        InsertOutcome::Inserted => SaveStep::Done,
        InsertOutcome::Failed => SaveStep::Fail,
        InsertOutcome::KeyTaken => if attempt < MAX_SAVE_ATTEMPTS {
            SaveStep::Retry
        } else {
            SaveStep::GiveUp
        },
    }
}

/// What the database still lacks, given how many columns are called `tags` and how many tables
/// `notes_fts`: the column, and the full-text index.
pub fn ensure_migrations(tags_columns: i64, fts_tables: i64) -> (r: (bool, bool))
    ensures
        r.0 == (tags_columns == 0),
        r.1 == (fts_tables <= 0),
{
    (tags_columns == 0, fts_tables <= 0)
}

/// How many notes are asked for at most: from 1 to 200.
pub open spec fn clamped(limit: usize) -> usize {
    if limit < 1 {
        1
    } else if limit > 200 {
        200
    } else {
        limit
    }
}

/// How many notes are asked for at most.
pub fn clamp_limit(limit: usize) -> (r: usize)
    ensures
        r == clamped(limit),
{
    if limit < 1 {
        1
    } else if limit > 200 {
        200
    } else {
        limit
    }
}

/// How notes are looked up.
#[derive(Debug, Clone)]
pub enum RecallPlan {
    /// The latest ones.
    List { limit: usize },
    /// By a full-text query.
    Match { expr: String, limit: usize },
    /// By the words that they hold.
    Score { query: String, limit: usize },
}

/// What a [`RecallPlan`] says.
pub enum RecallView {
    List(usize),
    Match(Seq<char>, usize),
    Score(Seq<char>, usize),
}

impl View for RecallPlan {
    type V = RecallView;

    open spec fn view(&self) -> RecallView {
        match self {
            RecallPlan::List { limit } => RecallView::List(*limit),
            RecallPlan::Match { expr, limit } => RecallView::Match(expr@, *limit),
            RecallPlan::Score { query, limit } => RecallView::Score(query@, *limit),
        }
    }
}

/// How notes are looked up: without a query the latest ones, else by the full-text index, or by the
/// words where there is none.
pub open spec fn recall_of(query: Option<Seq<char>>, limit: usize, fts5: bool) -> RecallView {
    match query {
        None => RecallView::List(clamped(limit)),
        Some(q) => {
            let t = trimmed(q);
            if t.len() == 0 {
                RecallView::List(clamped(limit))
            } else if fts5 && words(t).len() > 0 {
                RecallView::Match(joined(quoted_words(words(t)), " OR "@), clamped(limit))
            } else {
                RecallView::Score(t, clamped(limit))
            }
        },
    }
}

/// How notes are looked up, given the query and whether there is a full-text index.
pub fn recall(query: Option<&str>, limit: usize, fts5: bool) -> (r: RecallPlan)
    ensures
        r@ == recall_of(
            match query {
                Some(q) => Some(q@),
                None => None,
            },
            limit,
            fts5,
        ),
{
    let limit: usize = clamp_limit(limit);
    let q: String = match query {
        Some(q) => trim(q),
        None => {
            return RecallPlan::List { limit };
        },
    };
    if q.as_str().unicode_len() == 0 {
        return RecallPlan::List { limit };
    }
    if fts5 {
        match build_match_query(&q) {
            Some(expr) => {
                return RecallPlan::Match { expr, limit };
            },
            None => {},
        }
    }
    RecallPlan::Score { query: q, limit }
}

/// What `str::to_lowercase` makes of a text.
pub uninterp spec fn lower_case_of(s: Seq<char>) -> Seq<char>;

/// The text in lower case, by `str::to_lowercase`.
///
/// Trusted: that the result depends on the text alone. Which character becomes which, by the tables
/// of Unicode, is not stated.
#[verifier::external_body]
fn lower_case(s: &str) -> (r: String)
    ensures
        r@ == lower_case_of(s@),
{
    s.to_lowercase()
}

/// The words that a query asks for, in lower case, each once.
pub open spec fn query_tokens(query: Seq<char>) -> Seq<Seq<char>> {
    let ws = words(query);
    first_ones(Seq::new(ws.len(), |i: int| lower_case_of(ws[i])))
}

/// The words that a query asks for, in lower case, each once.
fn tokens_of(query: &str) -> (r: Vec<String>)
    ensures
        views(r@) == query_tokens(query@),
{
    let ws: Vec<String> = split_whitespace(query);
    let mut lowered: Vec<String> = Vec::new();
    let mut i: usize = 0;
    while i < ws.len()
        invariant
            i <= ws@.len(),
            lowered@.len() == i,
            forall|k: int| 0 <= k < i ==> (#[trigger] lowered@[k])@ == lower_case_of(ws@[k]@),
        decreases ws@.len() - i,
    {
        lowered.push(lower_case(&ws[i]));
        i = i + 1;
    }
    proof {
        let w = words(query@);
        assert(views(lowered@) =~= Seq::new(w.len(), |i: int| lower_case_of(w[i])));
    }
    unique_texts(&lowered)
}

/// How many of the words, which are in lower case, the note holds in its content or in its tags, in
/// whatever case.
pub open spec fn score_of(tokens: Seq<Seq<char>>, n: NoteView) -> nat
    decreases tokens.len(),
{
    if tokens.len() == 0 {
        0
    } else {
        score_of(tokens.drop_last(), n) + if has_text(lower_case_of(n.content), tokens.last())
            || has_text(lower_case_of(joined(n.tags, ","@)), tokens.last()) {
            1nat
        } else {
            0
        }
    }
}

fn score(tokens: &Vec<String>, n: &Note) -> (r: usize)
    ensures
        r == score_of(views(tokens@), n@),
        r <= tokens@.len(),
{
    let content: String = lower_case(&n.content);
    let tags: String = lower_case(&join(&n.tags, ","));
    let ghost all = views(tokens@);
    let mut s: usize = 0;
    let mut i: usize = 0;
    while i < tokens.len()
        invariant
            i <= tokens@.len(),
            s <= i,
            all == views(tokens@),
            content@ == lower_case_of(n@.content),
            tags@ == lower_case_of(joined(n@.tags, ","@)),
            s == score_of(all.take(i as int), n@),
        decreases tokens@.len() - i,
    {
        proof {
            assert(all.take(i + 1).drop_last() =~= all.take(i as int));
            assert(all.take(i + 1).last() == tokens@[i as int]@);
        }
        if contains_text(&content, &tokens[i]) || contains_text(&tags, &tokens[i]) {
            s = s + 1;
        }
        i = i + 1;
    }
    proof {
        assert(all.take(i as int) =~= all);
    }
    s
}

/// A note and how many of the words it holds.
#[derive(Debug, Clone)]
pub struct ScoredNote {
    pub score: usize,
    pub note: Note,
}

/// What a [`ScoredNote`] holds.
pub struct ScoredView {
    pub score: nat,
    pub note: NoteView,
}

impl View for ScoredNote {
    type V = ScoredView;

    open spec fn view(&self) -> ScoredView {
        ScoredView { score: self.score as nat, note: self.note@ }
    }
}

impl Ranked for ScoredNote {
    /// The one that holds more of the words first; of two that hold as many, the later one.
    open spec fn before(a: ScoredView, b: ScoredView) -> bool {
        a.score > b.score || (a.score == b.score && a.note.created_ts > b.note.created_ts)
    }

    fn goes_before(&self, other: &Self) -> (r: bool) {
        self.score > other.score || (self.score == other.score && self.note.created_ts
            > other.note.created_ts)
    }
}

/// The notes that hold any of the words.
pub open spec fn matching(notes: Seq<NoteView>, tokens: Seq<Seq<char>>) -> Seq<ScoredView>
    decreases notes.len(),
{
    if notes.len() == 0 {
        Seq::empty()
    } else {
        let n = notes.last();
        if score_of(tokens, n) > 0 {
            matching(notes.drop_last(), tokens).push(
                ScoredView { score: score_of(tokens, n), note: n },
            )
        } else {
            matching(notes.drop_last(), tokens)
        }
    }
}

/// The notes alone.
pub open spec fn notes_in(s: Seq<ScoredView>) -> Seq<NoteView> {
    Seq::new(s.len(), |i: int| s[i].note)
}

/// The first `limit` of the notes that hold any of the words, best match first.
pub open spec fn best_notes(notes: Seq<NoteView>, tokens: Seq<Seq<char>>, limit: nat) -> Seq<
    NoteView,
> {
    let r = ranked::<ScoredNote>(matching(notes, tokens));
    notes_in(
        if r.len() <= limit {
            r
        } else {
            r.take(limit as int)
        },
    )
}

/// The first `limit` of the notes that hold any of the words, best match first.
pub fn rank_notes(notes: Vec<Note>, tokens: &Vec<String>, limit: usize) -> (r: Vec<Note>)
    ensures
        views(r@) == best_notes(views(notes@), views(tokens@), limit as nat),
{
    let ghost all = views(notes@);
    let ghost ts = views(tokens@);
    let mut found: Vec<ScoredNote> = Vec::new();
    proof {
        assert(views(found@) =~= matching(all.take(0), ts));
    }
    for n in it: notes
        invariant
            it.seq() == notes@,
            all == views(notes@),
            ts == views(tokens@),
            views(found@) == matching(all.take(it.index()), ts),
    {
        let ghost shown = views(found@);
        let ghost nv = n@;
        proof {
            assert(all.take(it.index() + 1).drop_last() =~= all.take(it.index()));
            assert(all.take(it.index() + 1).last() == nv);
        }
        let s: usize = score(tokens, &n);
        if s > 0 {
            found.push(ScoredNote { score: s, note: n });
            proof {
                assert(views(found@) =~= shown.push(ScoredView { score: s as nat, note: nv }));
            }
        }
    }
    proof {
        assert(all.take(all.len() as int) =~= all);
    }
    let order: Vec<ScoredNote> = sorted(found);
    let ghost o = views(order@);
    let mut r: Vec<Note> = Vec::new();
    for s in it: order
        invariant
            it.seq() == order@,
            o == views(order@),
            r@.len() == if it.index() < limit {
                it.index()
            } else {
                limit as int
            },
            forall|k: int| 0 <= k < r@.len() ==> (#[trigger] r@[k])@ == o[k].note,
    {
        proof {
            assert(o[it.index()] == s@);
        }
        if r.len() < limit {
            r.push(s.note);
        }
    }
    proof {
        assert(views(r@) =~= best_notes(all, ts, limit as nat));
    }
    r
}

/// The first `limit` of the notes that hold any of the words of `query`, best match first; the
/// first ones where the query has no word.
pub fn recall_like(notes: Vec<Note>, query: &str, limit: usize) -> (r: Vec<Note>)
    ensures
        words(query@).len() > 0 ==> views(r@) == best_notes(
            views(notes@),
            query_tokens(query@),
            limit as nat,
        ),
        words(query@).len() == 0 ==> views(r@) == if notes@.len() <= limit {
            views(notes@)
        } else {
            views(notes@).take(limit as int)
        },
{
    let tokens: Vec<String> = tokens_of(query);
    if split_whitespace(query).len() == 0 {
        proof {
            assert(words(query@).len() == 0);
        }
        let ghost all = views(notes@);
        let mut r: Vec<Note> = notes;
        if r.len() > limit {
            r.truncate(limit);
        }
        proof {
            assert(views(r@) =~= if all.len() <= limit {
                all
            } else {
                all.take(limit as int)
            });
        }
        return r;
    }
    rank_notes(notes, &tokens, limit)
}

/// Every note that is recalled holds a word of the query. The notes come in order of how many words
/// they hold, and of two that hold as many the later one is first; no note that is left out would
/// come before one that is returned, and none is left out while there is room.
pub proof fn lemma_best_notes(notes: Seq<NoteView>, tokens: Seq<Seq<char>>, limit: nat)
    ensures
        ({
            let r = best_notes(notes, tokens, limit);
            &&& r.len() <= limit
            &&& forall|i: int|
                0 <= i < r.len() ==> score_of(tokens, #[trigger] r[i]) > 0 && notes.contains(r[i])
            &&& forall|i: int, j: int|
                0 <= i < j < r.len() ==> score_of(tokens, #[trigger] r[i]) > score_of(
                    tokens,
                    #[trigger] r[j],
                ) || (score_of(tokens, r[i]) == score_of(tokens, r[j]) && r[i].created_ts
                    >= r[j].created_ts)
            &&& forall|n: NoteView|
                #![trigger notes.contains(n)]
                notes.contains(n) && score_of(tokens, n) > 0 && !r.contains(n) ==> r.len() == limit
                    && forall|i: int|
                    0 <= i < r.len() ==> score_of(tokens, #[trigger] r[i]) > score_of(tokens, n)
                        || (score_of(tokens, r[i]) == score_of(tokens, n) && r[i].created_ts
                        >= n.created_ts)
        }),
{
    let m = matching(notes, tokens);
    let o = ranked::<ScoredNote>(m);
    let r = best_notes(notes, tokens, limit);
    lemma_matching(notes, tokens);
    assert(is_weak_order::<ScoredNote>());
    lemma_ranked_in_order::<ScoredNote>(m);
    assert forall|i: int| 0 <= i < r.len() implies r[i] == o[i].note && score_of(
        tokens,
        #[trigger] r[i],
    ) == o[i].score && o[i].score > 0 && notes.contains(r[i]) by {
        assert(o.contains(o[i]));
        lemma_ranked_contains::<ScoredNote>(m, o[i]);
        let k = choose|k: int| 0 <= k < m.len() && m[k] == o[i];
        assert(m[k].score > 0);
    }
    assert forall|i: int, j: int| 0 <= i < j < r.len() implies score_of(tokens, #[trigger] r[i])
        > score_of(tokens, #[trigger] r[j]) || (score_of(tokens, r[i]) == score_of(tokens, r[j])
        && r[i].created_ts >= r[j].created_ts) by {
        assert(!<ScoredNote as Ranked>::before(o[j], o[i]));
    }
    assert forall|n: NoteView|
        #![trigger notes.contains(n)]
        notes.contains(n) && score_of(tokens, n) > 0 && !r.contains(n) implies r.len() == limit
        && forall|i: int|
        0 <= i < r.len() ==> score_of(tokens, #[trigger] r[i]) > score_of(tokens, n) || (score_of(
            tokens,
            r[i],
        ) == score_of(tokens, n) && r[i].created_ts >= n.created_ts) by {
        let x = ScoredView { score: score_of(tokens, n), note: n };
        assert(m.contains(x));
        lemma_ranked_contains::<ScoredNote>(m, x);
        let k = choose|k: int| 0 <= k < o.len() && o[k] == x;
        if k < r.len() {
            assert(r[k] == n);
        }
        assert forall|i: int| 0 <= i < r.len() implies score_of(tokens, #[trigger] r[i]) > score_of(
            tokens,
            n,
        ) || (score_of(tokens, r[i]) == score_of(tokens, n) && r[i].created_ts
            >= n.created_ts) by {
            assert(!<ScoredNote as Ranked>::before(o[k], o[i]));
        }
    }
}

proof fn lemma_matching(notes: Seq<NoteView>, tokens: Seq<Seq<char>>)
    ensures
        forall|k: int|
            0 <= k < matching(notes, tokens).len() ==> {
                let x = #[trigger] matching(notes, tokens)[k];
                x.score > 0 && x.score == score_of(tokens, x.note) && notes.contains(x.note)
            },
        forall|n: NoteView|
            #![trigger notes.contains(n)]
            notes.contains(n) && score_of(tokens, n) > 0 ==> matching(notes, tokens).contains(
                ScoredView { score: score_of(tokens, n), note: n },
            ),
    decreases notes.len(),
{
    if notes.len() > 0 {
        let front = notes.drop_last();
        let f = matching(front, tokens);
        let m = matching(notes, tokens);
        lemma_matching(front, tokens);
        assert forall|k: int| 0 <= k < m.len() implies {
            let x = #[trigger] m[k];
            x.score > 0 && x.score == score_of(tokens, x.note) && notes.contains(x.note)
        } by {
            if k < f.len() {
                assert(m[k] == f[k]);
                let i = choose|i: int| 0 <= i < front.len() && front[i] == f[k].note;
                assert(notes[i] == f[k].note);
            } else {
                assert(notes[notes.len() - 1] == m[k].note);
            }
        }
        assert forall|n: NoteView|
            #![trigger notes.contains(n)]
            notes.contains(n) && score_of(tokens, n) > 0 implies m.contains(
            ScoredView { score: score_of(tokens, n), note: n },
        ) by {
            let x = ScoredView { score: score_of(tokens, n), note: n };
            let i = choose|i: int| 0 <= i < notes.len() && notes[i] == n;
            if i < front.len() {
                assert(front[i] == n);
                assert(front.contains(n));
                let k = choose|k: int| 0 <= k < f.len() && f[k] == x;
                assert(m[k] == x);
            } else {
                assert(m[m.len() - 1] == x);
            }
        }
    }
}

/// The tags that count are those with text in them, in their order, without the white space around
/// it.
pub proof fn lemma_tags_kept(tags: Seq<Seq<char>>)
    ensures
        clean_tags(tags) == tags.map_values(|t: Seq<char>| trimmed(t)).filter(
            |t: Seq<char>| t.len() > 0,
        ),
    decreases tags.len(),
{
    reveal(Seq::filter);
    let all = tags.map_values(|t: Seq<char>| trimmed(t));
    if tags.len() > 0 {
        lemma_tags_kept(tags.drop_last());
        assert(all.drop_last() =~= tags.drop_last().map_values(|t: Seq<char>| trimmed(t)));
    } else {
        assert(all =~= Seq::<Seq<char>>::empty());
    }
}

/// The text for a tag list is read piece by piece between the commas.
pub proof fn lemma_tags_in(tag: Seq<char>, rest: Seq<char>)
    requires
        !tag.contains(','),
    ensures
        trimmed(tag).len() > 0 ==> tags_in(tag.push(',') + rest) == seq![trimmed(tag)] + tags_in(
            rest,
        ),
        trimmed(tag).len() == 0 ==> tags_in(tag.push(',') + rest) == tags_in(rest),
        trimmed(tag).len() > 0 ==> tags_in(tag) == seq![trimmed(tag)],
        trimmed(tag).len() == 0 ==> tags_in(tag).len() == 0,
{
    crate::text::lemma_split_concat(tag, rest, ',');
    crate::text::lemma_split_single(tag, ',');
    let tail = split_at_each(rest, ',');
    lemma_clean_front(tag, tail);
    lemma_clean_front(tag, Seq::empty());
    assert(seq![tag] + Seq::<Seq<char>>::empty() =~= seq![tag]);
    assert(seq![trimmed(tag)] + Seq::<Seq<char>>::empty() =~= seq![trimmed(tag)]);
}

proof fn lemma_clean_front(tag: Seq<char>, rest: Seq<Seq<char>>)
    ensures
        trimmed(tag).len() > 0 ==> clean_tags(seq![tag] + rest) == seq![trimmed(tag)] + clean_tags(
            rest,
        ),
        trimmed(tag).len() == 0 ==> clean_tags(seq![tag] + rest) == clean_tags(rest),
    decreases rest.len(),
{
    let all = seq![tag] + rest;
    if rest.len() == 0 {
        assert(all =~= seq![tag]);
        assert(all.drop_last() =~= Seq::<Seq<char>>::empty());
        assert(clean_tags(all.drop_last()) =~= Seq::<Seq<char>>::empty());
        if trimmed(tag).len() > 0 {
            assert(clean_tags(all) =~= seq![trimmed(tag)] + clean_tags(rest));
        }
    } else {
        lemma_clean_front(tag, rest.drop_last());
        assert(all.drop_last() =~= seq![tag] + rest.drop_last());
        assert(all.last() == rest.last());
        if trimmed(tag).len() > 0 {
            assert(clean_tags(all) =~= seq![trimmed(tag)] + clean_tags(rest));
        }
    }
}

/// A text is quoted part by part: a quotation mark becomes two, every other character stays, and
/// one mark stands on each side of the whole.
pub proof fn lemma_quoted(a: Seq<char>, c: char, b: Seq<char>)
    ensures
        quotes_doubled(a + b) == quotes_doubled(a) + quotes_doubled(b),
        quotes_doubled(seq![c]) == if c == '"' {
            seq!['"', '"']
        } else {
            seq![c]
        },
        quoted(a) == seq!['"'] + quotes_doubled(a) + seq!['"'],
    decreases b.len(),
{
    reveal_strlit("\"");
    assert("\""@ =~= seq!['"']);
    assert(seq![c].drop_last() =~= Seq::<char>::empty());
    assert(quotes_doubled(Seq::<char>::empty()) =~= Seq::<char>::empty());
    assert(quotes_doubled(seq![c]) =~= if c == '"' {
        seq!['"', '"']
    } else {
        seq![c]
    });
    if b.len() == 0 {
        assert(a + b =~= a);
        assert(quotes_doubled(a) + quotes_doubled(b) =~= quotes_doubled(a));
    } else {
        lemma_quoted(a, c, b.drop_last());
        assert((a + b).drop_last() =~= a + b.drop_last());
        assert((a + b).last() == b.last());
        assert(quotes_doubled(a + b) =~= quotes_doubled(a) + quotes_doubled(b));
    }
}

/// A recall without a query, or with a blank one, lists; with full-text search it asks for notes
/// with any of the words; and without it scores the notes against the query.
pub proof fn lemma_recall_choice(query: Seq<char>, limit: usize, fts5: bool)
    ensures
        recall_of(None, limit, fts5) is List,
        recall_of(Some(query), limit, fts5) is List <==> trimmed(query).len() == 0,
        recall_of(Some(query), limit, fts5) is Match ==> fts5,
        !fts5 && trimmed(query).len() > 0 ==> recall_of(Some(query), limit, fts5)
            == RecallView::Score(trimmed(query), clamped(limit)),
        fts5 && words(trimmed(query)).len() > 0 && trimmed(query).len() > 0 ==> recall_of(
            Some(query),
            limit,
            fts5,
        ) is Match,
        1 <= clamped(limit) <= 200,
        1 <= limit <= 200 ==> clamped(limit) == limit,
        limit == 0 ==> clamped(limit) == 1,
        limit > 200 ==> clamped(limit) == 200,
{
}

/// The expression for a query puts its words, each quoted, in their order with `OR` between them.
pub proof fn lemma_match_words(w: Seq<char>, ws: Seq<Seq<char>>)
    ensures
        joined(quoted_words(seq![w]), " OR "@) == quoted(w),
        ws.len() > 0 ==> joined(quoted_words(seq![w] + ws), " OR "@) == quoted(w) + " OR "@
            + joined(quoted_words(ws), " OR "@),
{
    crate::text::lemma_joined(quoted(w), quoted_words(ws), " OR "@);
    assert(quoted_words(seq![w]) =~= seq![quoted(w)]);
    assert(quoted_words(seq![w] + ws) =~= seq![quoted(w)] + quoted_words(ws));
}

/// The words that are looked for are those of the query in lower case, each once.
pub proof fn lemma_query_tokens(query: Seq<char>)
    ensures
        query_tokens(query).no_duplicates(),
        forall|t: Seq<char>| #[trigger]
            query_tokens(query).contains(t) <==> exists|i: int|
                0 <= i < words(query).len() && lower_case_of(#[trigger] words(query)[i]) == t,
{
    let ws = words(query);
    let low = Seq::new(ws.len(), |i: int| lower_case_of(ws[i]));
    crate::text::lemma_first_ones(low, Seq::empty());
    assert forall|t: Seq<char>| #[trigger] query_tokens(query).contains(t) <==> exists|i: int|
        0 <= i < ws.len() && lower_case_of(#[trigger] ws[i]) == t by {
        if low.contains(t) {
            let i = choose|i: int| 0 <= i < low.len() && low[i] == t;
            assert(lower_case_of(ws[i]) == t);
        }
        if exists|i: int| 0 <= i < ws.len() && lower_case_of(#[trigger] ws[i]) == t {
            let i = choose|i: int| 0 <= i < ws.len() && lower_case_of(#[trigger] ws[i]) == t;
            assert(low[i] == t);
        }
    }
}

/// The score of a note is the number of words that stand in its content or in its tags.
pub proof fn lemma_score_counts(tokens: Seq<Seq<char>>, n: NoteView)
    ensures
        score_of(tokens, n) == tokens.filter(
            |t: Seq<char>|
                has_text(lower_case_of(n.content), t) || has_text(
                    lower_case_of(joined(n.tags, ","@)),
                    t,
                ),
        ).len(),
    decreases tokens.len(),
{
    reveal(Seq::filter);
    if tokens.len() > 0 {
        lemma_score_counts(tokens.drop_last(), n);
    }
}

/// The notes that are ranked are those that hold at least one word, in their order, each with its
/// own score.
pub proof fn lemma_matching_notes(notes: Seq<NoteView>, tokens: Seq<Seq<char>>)
    ensures
        ({
            let found = notes.filter(|n: NoteView| score_of(tokens, n) > 0);
            let r = matching(notes, tokens);
            &&& r.len() == found.len()
            &&& forall|i: int|
                0 <= i < r.len() ==> (#[trigger] r[i]).note == found[i] && r[i].score == score_of(
                    tokens,
                    found[i],
                )
        }),
    decreases notes.len(),
{
    reveal(Seq::filter);
    if notes.len() > 0 {
        lemma_matching_notes(notes.drop_last(), tokens);
    }
}

/// A note is refused exactly if its content or its scope is blank, the content first; else it is
/// stored with the time it was made at.
pub proof fn lemma_note_refused(
    content: Seq<char>,
    scope: Seq<char>,
    tags: Seq<Seq<char>>,
    now: i64,
)
    ensures
        ({
            let r = stored_note(content, scope, tags, now);
            &&& r == Err::<NoteRowView, NoteError>(NoteError::EmptyContent) <==> trimmed(
                content,
            ).len() == 0
            &&& r == Err::<NoteRowView, NoteError>(NoteError::EmptyScope) <==> trimmed(
                content,
            ).len() > 0 && trimmed(scope).len() == 0
            &&& r is Ok <==> trimmed(content).len() > 0 && trimmed(scope).len() > 0
            &&& r matches Ok(row) ==> row.ts == now && row.scope == trimmed(scope) && row.content
                == trimmed(content)
        }),
{
}

/// What is read of a row is what stands in its columns.
pub proof fn lemma_note_columns(
    id: i64,
    created_ts: i64,
    updated_ts: i64,
    scope: Seq<char>,
    content: Seq<char>,
    tags: Seq<char>,
    source: Seq<char>,
)
    ensures
        ({
            let n = note_of(id, created_ts, updated_ts, scope, content, tags, source);
            &&& n.id == id && n.created_ts == created_ts && n.updated_ts == updated_ts
            &&& n.scope == scope && n.content == content && n.source == source
            &&& n.tags == tags_in(tags)
        }),
{
}

/// The number of notes that are kept is the one that is set, where that is a whole number.
pub proof fn lemma_notes_cap(n: nat)
    ensures
        n <= usize::MAX ==> notes_cap(Some(decimal(n))) == n,
        n > usize::MAX ==> notes_cap(Some(decimal(n))) == DEFAULT_MAX_NOTES,
        notes_cap(None) == DEFAULT_MAX_NOTES,
{
    crate::text::lemma_decimal_reads_back(n);
    let s = decimal(n);
    assert(crate::text::is_digit(s[0]));
    assert(crate::text::is_digit(s[s.len() - 1]));
    let none = Seq::<char>::empty();
    crate::text::lemma_trim_takes_space(none, s, none);
    assert(none + s + none =~= s);
    crate::text::lemma_numbers_read(n, usize::MAX as nat);
}

/// What follows an attempt to insert a note.
pub open spec fn step_after(attempt: u32, outcome: InsertOutcome) -> SaveStep {
    match outcome {
        InsertOutcome::Inserted => SaveStep::Done,
        InsertOutcome::Failed => SaveStep::Fail,
        InsertOutcome::KeyTaken => if attempt < MAX_SAVE_ATTEMPTS {
            SaveStep::Retry
        } else {
            SaveStep::GiveUp
        },
    }
}

/// A note is done with exactly when it was inserted, and an error ends the matter at once; only a
/// key that is taken is tried again, five times in all.
pub proof fn lemma_attempts(attempt: u32, outcome: InsertOutcome)
    ensures
        step_after(attempt, outcome) == SaveStep::Done <==> outcome == InsertOutcome::Inserted,
        step_after(attempt, outcome) == SaveStep::Fail <==> outcome == InsertOutcome::Failed,
        step_after(attempt, outcome) == SaveStep::Retry <==> outcome == InsertOutcome::KeyTaken
            && attempt <= 4,
        step_after(attempt, outcome) == SaveStep::GiveUp <==> outcome == InsertOutcome::KeyTaken
            && attempt >= 5,
{
}

} // verus!
