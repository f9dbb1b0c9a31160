//! Keyword mining: tokens of messages, counted per word overall and on error
//! entries, in tables that merge by adding counts.
use vstd::prelude::*;
use vstd::string::*;
use crate::parser::{is_error_level, LogEntry};
use crate::text::{alphanumeric, chars_of, is_alnum, is_ws, lower_of, lowercase, same_text, substring, white_space};

verus! {

/// The whitespace-separated words of `s`, the word under way being `cur`.
pub open spec fn words_from(s: Seq<char>, cur: Seq<char>) -> Seq<Seq<char>>
    decreases s.len(),
{
    if s.len() == 0 {
        flush(cur)
    } else if white_space(s[0]) {
        flush(cur) + words_from(s.drop_first(), seq![])
    } else {
        words_from(s.drop_first(), cur.push(s[0]))
    }
}

/// A finished word, where it is not empty.
pub open spec fn flush(cur: Seq<char>) -> Seq<Seq<char>> {
    if cur.len() > 0 {
        seq![cur]
    } else {
        seq![]
    }
}

/// `w` without its leading characters that are not letters or digits.
pub open spec fn strip_left(w: Seq<char>) -> Seq<char>
    decreases w.len(),
{
    if w.len() > 0 && !alphanumeric(w[0]) {
        strip_left(w.drop_first())
    } else {
        w
    }
}

/// `w` without its trailing characters that are not letters or digits.
pub open spec fn strip_right(w: Seq<char>) -> Seq<char>
    decreases w.len(),
{
    if w.len() > 0 && !alphanumeric(w.last()) {
        strip_right(w.drop_last())
    } else {
        w
    }
}

/// The normalized form of a word: stripped of surrounding characters that are
/// not letters or digits, then lower-cased.
pub open spec fn normalize(w: Seq<char>) -> Seq<char> {
    lower_of(strip_right(strip_left(w)))
}

/// Words too common to say anything about a corpus.
pub open spec fn is_stopword(w: Seq<char>) -> bool {
    w == "the"@ || w == "and"@ || w == "for"@ || w == "with"@ || w == "from"@ || w == "that"@
        || w == "this"@ || w == "have"@ || w == "has"@ || w == "been"@ || w == "was"@ || w == "were"@
        || w == "are"@ || w == "will"@ || w == "would"@ || w == "could"@ || w == "should"@
        || w == "not"@ || w == "but"@ || w == "can"@ || w == "into"@ || w == "its"@ || w == "just"@
        || w == "when"@ || w == "then"@ || w == "also"@ || w == "than"@ || w == "more"@
        || w == "some"@ || w == "over"@ || w == "such"@ || w == "after"@ || w == "before"@
        || w == "while"@
}

/// A normalized word counts as a keyword: three characters or more, and no stop word.
pub open spec fn keeps(k: Seq<char>) -> bool {
    k.len() >= 3 && !is_stopword(k)
}

/// The keywords that the words `ws` give, in order.
pub open spec fn keywords_of_words(ws: Seq<Seq<char>>) -> Seq<Seq<char>>
    decreases ws.len(),
{
    if ws.len() == 0 {
        seq![]
    } else {
        let rest = keywords_of_words(ws.drop_last());
        let k = normalize(ws.last());
        if keeps(k) {
            rest.push(k)
        } else {
            rest
        }
    }
}

/// The keywords of a message, in order.
pub open spec fn keywords_of(msg: Seq<char>) -> Seq<Seq<char>> {
    keywords_of_words(words_from(msg, seq![]))
}

/// How often `w` occurs in `ks`.
pub open spec fn occurrences(ks: Seq<Seq<char>>, w: Seq<char>) -> nat
    decreases ks.len(),
{
    if ks.len() == 0 {
        0
    } else {
        occurrences(ks.drop_last(), w) + if ks.last() == w { 1nat } else { 0nat }
    }
}

/// How often `w` occurs as a keyword in the messages of `es`.
pub open spec fn word_total(es: Seq<LogEntry>, w: Seq<char>) -> nat
    decreases es.len(),
{
    if es.len() == 0 {
        0
    } else {
        word_total(es.drop_last(), w) + occurrences(keywords_of(es.last().message@), w)
    }
}

/// How often `w` occurs as a keyword in the messages of the errors of `es`.
pub open spec fn word_errors(es: Seq<LogEntry>, w: Seq<char>) -> nat
    decreases es.len(),
{
    if es.len() == 0 {
        0
    } else {
        word_errors(es.drop_last(), w) + if is_error_level(es.last().level) {
            occurrences(keywords_of(es.last().message@), w)
        } else {
            0nat
        }
    }
}

/// The number of characters in the messages of `es`.
pub open spec fn message_chars(es: Seq<LogEntry>) -> nat
    decreases es.len(),
{
    if es.len() == 0 {
        0
    } else {
        message_chars(es.drop_last()) + es.last().message@.len()
    }
}

/// The words of a message.
pub fn split_words(s: &str) -> (r: Vec<String>)
    ensures
        r@.map_values(|w: String| w@) == words_from(s@, seq![]),
        r@.len() <= s@.len(),
{
    let cs = chars_of(s);
    let n = cs.len();
    let mut out: Vec<String> = Vec::new();
    let mut start: usize = 0;
    let mut i: usize = 0;
    assert(cs@.subrange(0, n as int) =~= s@);
    assert(cs@.subrange(0, 0) =~= Seq::<char>::empty());
    while i < n
        invariant
            start <= i <= n == cs@.len() == s@.len(),
            cs@ == s@,
            out@.map_values(|w: String| w@) + words_from(cs@.subrange(i as int, n as int), cs@.subrange(start as int, i as int))
                == words_from(s@, seq![]),
            out@.len() + (if start < i { 1int } else { 0int }) <= i,
        decreases n - i,
    {
        let ghost rest = cs@.subrange(i as int, n as int);
        let ghost cur = cs@.subrange(start as int, i as int);
        assert(rest.drop_first() =~= cs@.subrange(i + 1, n as int));
        if is_ws(cs[i]) {
            let ghost before = out@.map_values(|w: String| w@);
            if start < i {
                let w = substring(s, start, i);
                out.push(w);
                assert(out@.map_values(|w: String| w@) =~= before + flush(cur));
            } else {
                assert(flush(cur) =~= Seq::<Seq<char>>::empty());
                assert(before + flush(cur) =~= before);
            }
            i = i + 1;
            start = i;
            assert(cs@.subrange(start as int, i as int) =~= Seq::<char>::empty());
            assert(out@.map_values(|w: String| w@) + words_from(cs@.subrange(i as int, n as int), cs@.subrange(start as int, i as int))
                =~= before + (flush(cur) + words_from(rest.drop_first(), seq![])));
        } else {
            assert(cur.push(rest[0]) =~= cs@.subrange(start as int, i + 1));
            i = i + 1;
        }
    }
    let ghost cur = cs@.subrange(start as int, n as int);
    let ghost before = out@.map_values(|w: String| w@);
    assert(cs@.subrange(n as int, n as int) =~= Seq::<char>::empty());
    if start < n {
        let w = substring(s, start, n);
        out.push(w);
        assert(out@.map_values(|w: String| w@) =~= before + flush(cur));
    } else {
        assert(before + flush(cur) =~= before);
    }
    out
}

/// A word stripped of surrounding characters that are not letters or digits.
pub fn strip_word(w: &str) -> (r: String)
    ensures
        r@ == strip_right(strip_left(w@)),
{
    let cs = chars_of(w);
    let n = cs.len();
    let mut a: usize = 0;
    assert(cs@.subrange(0, n as int) =~= cs@);
    while a < n && !is_alnum(cs[a])
        invariant
            a <= n == cs@.len(),
            cs@ == w@,
            strip_left(w@) == strip_left(cs@.subrange(a as int, n as int)),
        decreases n - a,
    {
        assert(cs@.subrange(a as int + 1, n as int) =~= cs@.subrange(a as int, n as int).drop_first());
        a = a + 1;
    }
    assert(strip_left(w@) == cs@.subrange(a as int, n as int)) by {
        if a < n {
            assert(alphanumeric(cs@.subrange(a as int, n as int)[0]));
        }
    }
    let mut b: usize = n;
    while b > a && !is_alnum(cs[b - 1])
        invariant
            a <= b <= n == cs@.len(),
            cs@ == w@,
            strip_right(strip_left(w@)) == strip_right(cs@.subrange(a as int, b as int)),
        decreases b,
    {
        assert(cs@.subrange(a as int, b - 1) =~= cs@.subrange(a as int, b as int).drop_last());
        b = b - 1;
    }
    substring(w, a, b)
}

/// Whether a normalized word is a stop word.
pub fn stopword(w: &str) -> (r: bool)
    ensures
        r == is_stopword(w@),
{
    same_text(w, "the") || same_text(w, "and") || same_text(w, "for") || same_text(w, "with")
        || same_text(w, "from") || same_text(w, "that") || same_text(w, "this") || same_text(w, "have")
        || same_text(w, "has") || same_text(w, "been") || same_text(w, "was") || same_text(w, "were")
        || same_text(w, "are") || same_text(w, "will") || same_text(w, "would") || same_text(w, "could")
        || same_text(w, "should") || same_text(w, "not") || same_text(w, "but") || same_text(w, "can")
        || same_text(w, "into") || same_text(w, "its") || same_text(w, "just") || same_text(w, "when")
        || same_text(w, "then") || same_text(w, "also") || same_text(w, "than") || same_text(w, "more")
        || same_text(w, "some") || same_text(w, "over") || same_text(w, "such") || same_text(w, "after")
        || same_text(w, "before") || same_text(w, "while")
}

/// The keywords of a message, in order.
pub fn message_keywords(msg: &str) -> (r: Vec<String>)
    ensures
        r@.map_values(|w: String| w@) == keywords_of(msg@),
        r@.len() <= msg@.len(),
{
    let words = split_words(msg);
    let ghost ws = words@.map_values(|w: String| w@);
    let mut out: Vec<String> = Vec::new();
    let mut i: usize = 0;
    assert(ws.subrange(0, 0) =~= Seq::<Seq<char>>::empty());
    assert(out@.map_values(|w: String| w@) =~= Seq::<Seq<char>>::empty());
    while i < words.len()
        invariant
            i <= words@.len() <= msg@.len(),
            ws == words@.map_values(|w: String| w@),
            out@.map_values(|w: String| w@) == keywords_of_words(ws.subrange(0, i as int)),
            out@.len() <= i,
        decreases words@.len() - i,
    {
        assert(ws.subrange(0, i + 1).drop_last() =~= ws.subrange(0, i as int));
        assert(ws.subrange(0, i + 1).last() == words@[i as int]@);
        let stripped = strip_word(words[i].as_str());
        let k = lowercase(stripped.as_str());
        assert(k@ == normalize(ws.subrange(0, i + 1).last()));
        if k.as_str().unicode_len() >= 3 && !stopword(k.as_str()) {
            let ghost before = out@.map_values(|w: String| w@);
            out.push(k);
            assert(out@.map_values(|w: String| w@) =~= before.push(out@.last()@));
        }
        i = i + 1;
    }
    assert(ws.subrange(0, words@.len() as int) =~= ws);
    out
}


/// A keyword with the number of its occurrences overall and on error entries.
#[derive(Debug)]
pub struct KeywordEntry {
    pub word: String,
    pub count: usize,
    pub error_count: usize,
}

/// The count of `w` in a table: the sum over the rows for `w`.
pub open spec fn tally_total(t: Seq<KeywordEntry>, w: Seq<char>) -> nat
    decreases t.len(),
{
    if t.len() == 0 {
        0
    } else {
        tally_total(t.drop_last(), w) + if t.last().word@ == w { t.last().count as nat } else { 0nat }
    }
}

/// The error count of `w` in a table: the sum over the rows for `w`.
pub open spec fn tally_errors(t: Seq<KeywordEntry>, w: Seq<char>) -> nat
    decreases t.len(),
{
    if t.len() == 0 {
        0
    } else {
        tally_errors(t.drop_last(), w) + if t.last().word@ == w { t.last().error_count as nat } else { 0nat }
    }
}

/// Per-word counts of keywords, one row per word.
pub struct KeywordCounts {
    pub rows: Vec<KeywordEntry>,
}

impl KeywordCounts {
    /// One row per word; each row counts its word at least once, on errors at
    /// most as often as overall.
    pub open spec fn wf(self) -> bool {
        &&& forall|i: int, j: int| 0 <= i < j < self.rows@.len() ==> #[trigger] self.rows@[i].word@ != #[trigger] self.rows@[j].word@
        &&& forall|i: int| 0 <= i < self.rows@.len() ==> (#[trigger] self.rows@[i]).count > 0
        &&& forall|i: int| 0 <= i < self.rows@.len() ==> (#[trigger] self.rows@[i]).error_count <= self.rows@[i].count
    }

    pub open spec fn total(self, w: Seq<char>) -> nat {
        tally_total(self.rows@, w)
    }

    pub open spec fn errors(self, w: Seq<char>) -> nat {
        tally_errors(self.rows@, w)
    }

    /// An empty table.
    pub fn new() -> (r: KeywordCounts)
        ensures
            r.wf(),
            forall|w: Seq<char>| r.total(w) == 0 && r.errors(w) == 0,
    {
        KeywordCounts { rows: Vec::new() }
    }

    /// Counts `word` `c` more times overall and `e` more times on errors.
    fn add(&mut self, word: String, c: usize, e: usize)
        requires
            old(self).wf(),
            c > 0,
            e <= c,
            old(self).total(word@) + c <= usize::MAX,
        ensures
            final(self).wf(),
            forall|w: Seq<char>| #[trigger] final(self).total(w) == old(self).total(w) + if w == word@ { c as nat } else { 0nat },
            forall|w: Seq<char>| #[trigger] final(self).errors(w) == old(self).errors(w) + if w == word@ { e as nat } else { 0nat },
    {
        let n = self.rows.len();
        let mut i: usize = 0;
        while i < n
            invariant
                i <= n == self.rows@.len(),
                self.rows@ == old(self).rows@,
                old(self).wf(),
                c > 0,
                e <= c,
                old(self).total(word@) + c <= usize::MAX,
                forall|k: int| 0 <= k < i ==> (#[trigger] self.rows@[k]).word@ != word@,
            decreases n - i,
        {
            if same_text(self.rows[i].word.as_str(), word.as_str()) {
                let ghost t = self.rows@;
                proof {
                    lemma_row_within_total(t, i as int);
                }
                assert(t[i as int].word@ == word@);
                assert(t[i as int].error_count <= t[i as int].count);
                let count = self.rows[i].count + c;
                let error_count = self.rows[i].error_count + e;
                let row = KeywordEntry { word, count, error_count };
                self.rows.set(i, row);
                proof {
                    lemma_tally_update(t, i as int, row);
                    assert(self.rows@ == t.update(i as int, row));
                    assert forall|w: Seq<char>| #[trigger] self.total(w) == old(self).total(w) + if w == word@ { c as nat } else { 0nat } by {
                        assert(tally_total(t.update(i as int, row), w) + (if w == row.word@ { t[i as int].count as nat } else { 0nat })
                            == tally_total(t, w) + (if w == row.word@ { row.count as nat } else { 0nat }));
                    }
                    assert forall|w: Seq<char>| #[trigger] self.errors(w) == old(self).errors(w) + if w == word@ { e as nat } else { 0nat } by {
                        assert(tally_errors(t.update(i as int, row), w) + (if w == row.word@ { t[i as int].error_count as nat } else { 0nat })
                            == tally_errors(t, w) + (if w == row.word@ { row.error_count as nat } else { 0nat }));
                    }
                    assert forall|a: int, b: int| 0 <= a < b < self.rows@.len() implies #[trigger] self.rows@[a].word@ != #[trigger] self.rows@[b].word@ by {
                        assert(t[a].word@ != t[b].word@);
                    }
                }
                return;
            }
            i = i + 1;
        }
        let ghost t = self.rows@;
        let row = KeywordEntry { word, count: c, error_count: e };
        self.rows.push(row);
        assert(self.rows@.drop_last() =~= t);
        assert forall|a: int, b: int| 0 <= a < b < self.rows@.len() implies #[trigger] self.rows@[a].word@ != #[trigger] self.rows@[b].word@ by {
            if b < t.len() {
                assert(t[a].word@ != t[b].word@);
            } else {
                assert(t[a].word@ != word@);
            }
        }
    }
}

/// A row's count is at most its word's count in the table.
proof fn lemma_row_within_total(t: Seq<KeywordEntry>, i: int)
    requires
        0 <= i < t.len(),
    ensures
        t[i].count <= tally_total(t, t[i].word@),
        t[i].error_count <= tally_errors(t, t[i].word@),
    decreases t.len(),
{
    if i < t.len() - 1 {
        lemma_row_within_total(t.drop_last(), i);
    }
}

/// Replacing a row by one for the same word changes that word's counts alone.
proof fn lemma_tally_update(t: Seq<KeywordEntry>, i: int, row: KeywordEntry)
    requires
        0 <= i < t.len(),
        row.word@ == t[i].word@,
    ensures
        forall|w: Seq<char>| #[trigger] tally_total(t.update(i, row), w) + (if w == row.word@ { t[i].count as nat } else { 0nat })
            == tally_total(t, w) + (if w == row.word@ { row.count as nat } else { 0nat }),
        forall|w: Seq<char>| #[trigger] tally_errors(t.update(i, row), w) + (if w == row.word@ { t[i].error_count as nat } else { 0nat })
            == tally_errors(t, w) + (if w == row.word@ { row.error_count as nat } else { 0nat }),
    decreases t.len(),
{
    let u = t.update(i, row);
    if i < t.len() - 1 {
        lemma_tally_update(t.drop_last(), i, row);
        assert(u.drop_last() =~= t.drop_last().update(i, row));
        assert(u.last() == t.last());
    } else {
        assert(u.drop_last() =~= t.drop_last());
        assert(u.last() == row);
    }
    assert forall|w: Seq<char>| #[trigger] tally_total(u, w) + (if w == row.word@ { t[i].count as nat } else { 0nat })
        == tally_total(t, w) + (if w == row.word@ { row.count as nat } else { 0nat }) by {
        assert(tally_total(u, w) == tally_total(u.drop_last(), w) + if u.last().word@ == w { u.last().count as nat } else { 0nat });
    }
    assert forall|w: Seq<char>| #[trigger] tally_errors(u, w) + (if w == row.word@ { t[i].error_count as nat } else { 0nat })
        == tally_errors(t, w) + (if w == row.word@ { row.error_count as nat } else { 0nat }) by {
        assert(tally_errors(u, w) == tally_errors(u.drop_last(), w) + if u.last().word@ == w { u.last().error_count as nat } else { 0nat });
    }
}

/// A prefix of a table counts each word at most as often as the table.
proof fn lemma_tally_prefix(t: Seq<KeywordEntry>, j: int, w: Seq<char>)
    requires
        0 <= j <= t.len(),
    ensures
        tally_total(t.subrange(0, j), w) <= tally_total(t, w),
    decreases t.len() - j,
{
    if j < t.len() {
        lemma_tally_prefix(t, j + 1, w);
        assert(t.subrange(0, j + 1).drop_last() =~= t.subrange(0, j));
    } else {
        assert(t.subrange(0, j) =~= t);
    }
}

/// Counting over a prefix of the entries counts no more characters than the whole.
proof fn lemma_message_chars_prefix(es: Seq<LogEntry>, i: int)
    requires
        0 <= i <= es.len(),
    ensures
        message_chars(es.subrange(0, i)) <= message_chars(es),
    decreases es.len() - i,
{
    if i < es.len() {
        lemma_message_chars_prefix(es, i + 1);
        assert(es.subrange(0, i + 1).drop_last() =~= es.subrange(0, i));
    } else {
        assert(es.subrange(0, i) =~= es);
    }
}

/// The keyword counts of the messages of `entries`, overall and on errors.
pub fn count_keywords(entries: &[LogEntry]) -> (r: KeywordCounts)
    requires
        message_chars(entries@) <= usize::MAX,
    ensures
        r.wf(),
        forall|w: Seq<char>| #[trigger] r.total(w) == word_total(entries@, w),
        forall|w: Seq<char>| #[trigger] r.errors(w) == word_errors(entries@, w),
{
    let mut table = KeywordCounts::new();
    let n = entries.len();
    let mut i: usize = 0;
    assert(entries@.subrange(0, 0) =~= Seq::<LogEntry>::empty());
    while i < n
        invariant
            i <= n == entries@.len(),
            message_chars(entries@) <= usize::MAX,
            table.wf(),
            forall|w: Seq<char>| #[trigger] table.total(w) == word_total(entries@.subrange(0, i as int), w),
            forall|w: Seq<char>| #[trigger] table.errors(w) == word_errors(entries@.subrange(0, i as int), w),
            forall|w: Seq<char>| #[trigger] table.total(w) <= message_chars(entries@.subrange(0, i as int)),
        decreases n - i,
    {
        let ghost pre = entries@.subrange(0, i as int);
        let ghost post = entries@.subrange(0, i + 1);
        assert(post.drop_last() =~= pre);
        assert(post.last() == entries@[i as int]);
        proof {
            lemma_message_chars_prefix(entries@, i + 1);
        }
        let kws = message_keywords(entries[i].message.as_str());
        let ghost ks = kws@.map_values(|w: String| w@);
        let is_error = entries[i].level.is_error();
        let mut j: usize = 0;
        assert(ks.subrange(0, 0) =~= Seq::<Seq<char>>::empty());
        while j < kws.len()
            invariant
                j <= kws@.len() <= entries@[i as int].message@.len(),
                i < n == entries@.len(),
                message_chars(post) <= usize::MAX,
                message_chars(post) == message_chars(pre) + entries@[i as int].message@.len(),
                is_error == is_error_level(entries@[i as int].level),
                ks == kws@.map_values(|w: String| w@),
                table.wf(),
                forall|w: Seq<char>| #[trigger] table.total(w) == word_total(pre, w) + occurrences(ks.subrange(0, j as int), w),
                forall|w: Seq<char>| #[trigger] table.errors(w) == word_errors(pre, w) + if is_error {
                    occurrences(ks.subrange(0, j as int), w)
                } else {
                    0nat
                },
                forall|w: Seq<char>| #[trigger] table.total(w) <= message_chars(pre) + j,
            decreases kws@.len() - j,
        {
            assert(ks.subrange(0, j + 1).drop_last() =~= ks.subrange(0, j as int));
            assert(ks.subrange(0, j + 1).last() == kws@[j as int]@);
            let w = kws[j].clone();
            table.add(w, 1, if is_error { 1 } else { 0 });
            j = j + 1;
        }
        assert(ks.subrange(0, kws@.len() as int) =~= ks);
        i = i + 1;
    }
    assert(entries@.subrange(0, n as int) =~= entries@);
    table
}

/// Adds the counts of `other` into `acc`, word by word.
pub fn merge_counts(acc: &mut KeywordCounts, other: &KeywordCounts)
    requires
        old(acc).wf(),
        other.wf(),
        forall|w: Seq<char>| #[trigger] old(acc).total(w) + other.total(w) <= usize::MAX,
    ensures
        final(acc).wf(),
        forall|w: Seq<char>| #[trigger] final(acc).total(w) == old(acc).total(w) + other.total(w),
        forall|w: Seq<char>| #[trigger] final(acc).errors(w) == old(acc).errors(w) + other.errors(w),
{
    let ghost start = *acc;
    let ghost t = other.rows@;
    let n = other.rows.len();
    let mut j: usize = 0;
    assert(t.subrange(0, 0) =~= Seq::<KeywordEntry>::empty());
    while j < n
        invariant
            j <= n == t.len(),
            t == other.rows@,
            other.wf(),
            start.wf(),
            forall|w: Seq<char>| #[trigger] start.total(w) + other.total(w) <= usize::MAX,
            acc.wf(),
            forall|w: Seq<char>| #[trigger] acc.total(w) == start.total(w) + tally_total(t.subrange(0, j as int), w),
            forall|w: Seq<char>| #[trigger] acc.errors(w) == start.errors(w) + tally_errors(t.subrange(0, j as int), w),
        decreases n - j,
    {
        assert(t.subrange(0, j + 1).drop_last() =~= t.subrange(0, j as int));
        assert(t.subrange(0, j + 1).last() == t[j as int]);
        proof {
            lemma_tally_prefix(t, j + 1, t[j as int].word@);
        }
        let row = &other.rows[j];
        assert(row.count > 0 && row.error_count <= row.count);
        acc.add(row.word.clone(), row.count, row.error_count);
        j = j + 1;
    }
    assert(t.subrange(0, n as int) =~= t);
}


/// The entries of `chunks`, one chunk after another.
pub open spec fn flatten(chunks: Seq<Seq<LogEntry>>) -> Seq<LogEntry>
    decreases chunks.len(),
{
    if chunks.len() == 0 {
        seq![]
    } else {
        flatten(chunks.drop_last()) + chunks.last()
    }
}

/// The sum over `chunks` of the keyword count of `w` in each.
pub open spec fn chunk_totals(chunks: Seq<Seq<LogEntry>>, w: Seq<char>) -> nat
    decreases chunks.len(),
{
    if chunks.len() == 0 {
        0
    } else {
        chunk_totals(chunks.drop_last(), w) + word_total(chunks.last(), w)
    }
}

/// The sum over `chunks` of the error count of `w` in each.
pub open spec fn chunk_errors(chunks: Seq<Seq<LogEntry>>, w: Seq<char>) -> nat
    decreases chunks.len(),
{
    if chunks.len() == 0 {
        0
    } else {
        chunk_errors(chunks.drop_last(), w) + word_errors(chunks.last(), w)
    }
}

/// Counts over two runs of entries add up to the counts over both.
pub proof fn lemma_counts_append(a: Seq<LogEntry>, b: Seq<LogEntry>, w: Seq<char>)
    ensures
        word_total(a + b, w) == word_total(a, w) + word_total(b, w),
        word_errors(a + b, w) == word_errors(a, w) + word_errors(b, w),
    decreases b.len(),
{
    if b.len() == 0 {
        assert(a + b =~= a);
    } else {
        lemma_counts_append(a, b.drop_last(), w);
        assert((a + b).drop_last() =~= a + b.drop_last());
        assert((a + b).last() == b.last());
    }
}

/// Splitting a corpus into chunks in any way, counting each chunk apart and
/// adding the counts word by word gives the counts of one pass over the corpus.
pub proof fn lemma_partition_counts(chunks: Seq<Seq<LogEntry>>, w: Seq<char>)
    ensures
        word_total(flatten(chunks), w) == chunk_totals(chunks, w),
        word_errors(flatten(chunks), w) == chunk_errors(chunks, w),
    decreases chunks.len(),
{
    if chunks.len() > 0 {
        lemma_partition_counts(chunks.drop_last(), w);
        lemma_counts_append(flatten(chunks.drop_last()), chunks.last(), w);
    }
}

/// `a` comes before `b` in code-point order.
pub open spec fn word_less(a: Seq<char>, b: Seq<char>) -> bool
    decreases a.len(),
{
    if a.len() == 0 {
        b.len() > 0
    } else if b.len() == 0 {
        false
    } else if a[0] != b[0] {
        a[0] < b[0]
    } else {
        word_less(a.drop_first(), b.drop_first())
    }
}

proof fn lemma_word_less_trans(a: Seq<char>, b: Seq<char>, c: Seq<char>)
    requires
        word_less(a, b),
        word_less(b, c),
    ensures
        word_less(a, c),
    decreases a.len(),
{
    if a.len() > 0 && b.len() > 0 && c.len() > 0 && a[0] == b[0] && b[0] == c[0] {
        lemma_word_less_trans(a.drop_first(), b.drop_first(), c.drop_first());
    }
}

proof fn lemma_word_less_irrefl(a: Seq<char>)
    ensures
        !word_less(a, a),
    decreases a.len(),
{
    if a.len() > 0 {
        lemma_word_less_irrefl(a.drop_first());
    }
}

/// Whether `a` comes before `b` in code-point order.
pub fn text_less(a: &Vec<char>, b: &Vec<char>) -> (r: bool)
    ensures
        r == word_less(a@, b@),
{
    let mut i: usize = 0;
    assert(a@.subrange(0, a@.len() as int) =~= a@);
    assert(b@.subrange(0, b@.len() as int) =~= b@);
    while i < a.len() && i < b.len() && a[i] == b[i]
        invariant
            i <= a@.len(),
            i <= b@.len(),
            word_less(a@, b@) == word_less(a@.subrange(i as int, a@.len() as int), b@.subrange(i as int, b@.len() as int)),
        decreases a@.len() - i,
    {
        assert(a@.subrange(i as int, a@.len() as int).drop_first() =~= a@.subrange(i + 1, a@.len() as int));
        assert(b@.subrange(i as int, b@.len() as int).drop_first() =~= b@.subrange(i + 1, b@.len() as int));
        i = i + 1;
    }
    if i == a.len() {
        i < b.len()
    } else if i == b.len() {
        false
    } else {
        a[i] < b[i]
    }
}

/// A word with count and error count `a` ranks above `b`: counted more often; or as often and more often on
/// errors, so with the larger share of errors; or tied on both and first in
/// code-point order.
pub open spec fn outranks(a: (Seq<char>, nat, nat), b: (Seq<char>, nat, nat)) -> bool {
    a.1 > b.1 || (a.1 == b.1 && (a.2 > b.2 || (a.2 == b.2 && word_less(a.0, b.0))))
}

/// A row as its word, count and error count.
pub open spec fn key(e: KeywordEntry) -> (Seq<char>, nat, nat) {
    (e.word@, e.count as nat, e.error_count as nat)
}

/// `a` ranks above `b`.
pub open spec fn ranks_above(a: KeywordEntry, b: KeywordEntry) -> bool {
    outranks(key(a), key(b))
}

proof fn lemma_ranks_trans(a: KeywordEntry, b: KeywordEntry, c: KeywordEntry)
    requires
        ranks_above(a, b),
        ranks_above(b, c),
    ensures
        ranks_above(a, c),
{
    if a.count == b.count && b.count == c.count && a.error_count == b.error_count && b.error_count == c.error_count {
        lemma_word_less_trans(a.word@, b.word@, c.word@);
    }
}

/// No entry of `s` ranks above an earlier one.
pub open spec fn ranked(s: Seq<KeywordEntry>) -> bool {
    forall|i: int, j: int| 0 <= i < j < s.len() ==> !ranks_above(#[trigger] s[j], #[trigger] s[i])
}

fn ranks_above_exec(a: &KeywordEntry, b: &KeywordEntry) -> (r: bool)
    ensures
        r == ranks_above(*a, *b),
{
    if a.count != b.count {
        return a.count > b.count;
    }
    if a.error_count != b.error_count {
        return a.error_count > b.error_count;
    }
    text_less(&chars_of(a.word.as_str()), &chars_of(b.word.as_str()))
}

/// The row for `w` is missing: `w` counts nothing.
proof fn lemma_tally_absent(t: Seq<KeywordEntry>, w: Seq<char>)
    requires
        forall|k: int| 0 <= k < t.len() ==> (#[trigger] t[k]).word@ != w,
    ensures
        tally_total(t, w) == 0,
        tally_errors(t, w) == 0,
    decreases t.len(),
{
    if t.len() > 0 {
        assert(t.last() == t[t.len() - 1]);
        lemma_tally_absent(t.drop_last(), w);
    }
}

/// A word that counts something has a row.
proof fn lemma_tally_present(t: Seq<KeywordEntry>, w: Seq<char>)
    requires
        tally_total(t, w) > 0,
    ensures
        exists|k: int| 0 <= k < t.len() && (#[trigger] t[k]).word@ == w,
    decreases t.len(),
{
    if t.last().word@ != w {
        lemma_tally_present(t.drop_last(), w);
        let k = choose|k: int| 0 <= k < t.drop_last().len() && (#[trigger] t.drop_last()[k]).word@ == w;
        assert(t[k] == t.drop_last()[k]);
    } else {
        assert(t[t.len() - 1] == t.last());
    }
}

/// In a table with one row per word, a row holds its word's counts.
proof fn lemma_tally_unique(t: Seq<KeywordEntry>, i: int)
    requires
        0 <= i < t.len(),
        forall|a: int, b: int| 0 <= a < b < t.len() ==> #[trigger] t[a].word@ != #[trigger] t[b].word@,
    ensures
        t[i].count == tally_total(t, t[i].word@),
        t[i].error_count == tally_errors(t, t[i].word@),
    decreases t.len(),
{
    let d = t.drop_last();
    if i < t.len() - 1 {
        assert(t.last() == t[t.len() - 1]);
        lemma_tally_unique(d, i);
    } else {
        assert forall|k: int| 0 <= k < d.len() implies (#[trigger] d[k]).word@ != t[i].word@ by {
            assert(d[k] == t[k]);
        }
        lemma_tally_absent(d, t[i].word@);
    }
}

/// A row holds the exact counts of its word in `es`.
pub open spec fn exact_for(e: KeywordEntry, es: Seq<LogEntry>) -> bool {
    &&& e.count == word_total(es, e.word@)
    &&& e.error_count == word_errors(es, e.word@)
    &&& e.count > 0
}

/// The word of `s` at `k`.
pub open spec fn word_at(s: Seq<KeywordEntry>, k: int) -> Seq<char> {
    s[k].word@
}

/// Some entry of `s` is for `w`.
pub open spec fn has_word(s: Seq<KeywordEntry>, w: Seq<char>) -> bool {
    exists|k: int| 0 <= k < s.len() && word_at(s, k) == w
}

/// The keywords of `entries` that rank highest, at most `limit` of them, each
/// with its exact counts, from the highest down.
pub fn extract_keywords(entries: &[LogEntry], limit: usize) -> (r: Vec<KeywordEntry>)
    requires
        message_chars(entries@) <= usize::MAX,
    ensures
        r@.len() <= limit,
        forall|k: int| 0 <= k < r@.len() ==> exact_for(#[trigger] r@[k], entries@),
        forall|a: int, b: int| 0 <= a < b < r@.len() ==> #[trigger] word_at(r@, a) != #[trigger] word_at(r@, b),
        ranked(r@),
        forall|a: int, b: int| 0 <= a < b < r@.len() ==> (#[trigger] r@[a]).count >= (#[trigger] r@[b]).count
            && (r@[a].count == r@[b].count ==> r@[a].error_count * r@[b].count >= r@[b].error_count * r@[a].count),
        forall|w: Seq<char>| word_total(entries@, w) > 0 && !has_word(r@, w) ==> {
            &&& r@.len() == limit
            &&& forall|k: int| 0 <= k < r@.len() ==> !outranks((w, word_total(entries@, w), word_errors(entries@, w)), key(#[trigger] r@[k]))
        },
{
    let table = count_keywords(entries);
    let mut remaining = table.rows;
    let ghost es = entries@;
    proof {
        assert forall|k: int| 0 <= k < remaining@.len() implies exact_for(#[trigger] remaining@[k], es) by {
            lemma_tally_unique(remaining@, k);
            assert(table.total(remaining@[k].word@) == word_total(es, remaining@[k].word@));
            assert(table.errors(remaining@[k].word@) == word_errors(es, remaining@[k].word@));
        }
        assert forall|w: Seq<char>| word_total(es, w) > 0 implies has_word(remaining@, w) by {
            assert(table.total(w) == word_total(es, w));
            lemma_tally_present(remaining@, w);
            let k = choose|k: int| 0 <= k < remaining@.len() && (#[trigger] remaining@[k]).word@ == w;
            assert(word_at(remaining@, k) == w);
        }
    }
    let mut out: Vec<KeywordEntry> = Vec::new();
    while out.len() < limit && remaining.len() > 0
        invariant
            es == entries@,
            out@.len() <= limit,
            forall|k: int| 0 <= k < out@.len() ==> exact_for(#[trigger] out@[k], es),
            forall|k: int| 0 <= k < remaining@.len() ==> exact_for(#[trigger] remaining@[k], es),
            forall|a: int, b: int| 0 <= a < b < out@.len() ==> #[trigger] word_at(out@, a) != #[trigger] word_at(out@, b),
            forall|a: int, b: int| 0 <= a < b < remaining@.len() ==> #[trigger] word_at(remaining@, a) != #[trigger] word_at(remaining@, b),
            forall|a: int, b: int| 0 <= a < out@.len() && 0 <= b < remaining@.len() ==> #[trigger] word_at(out@, a) != #[trigger] word_at(remaining@, b),
            ranked(out@),
            forall|a: int, b: int| 0 <= a < out@.len() && 0 <= b < remaining@.len() ==> !ranks_above(#[trigger] remaining@[b], #[trigger] out@[a]),
            forall|w: Seq<char>| word_total(es, w) > 0 ==> has_word(out@, w) || has_word(remaining@, w),
        decreases remaining@.len(),
    {
        let mut best: usize = 0;
        let mut k: usize = 1;
        proof {
            lemma_word_less_irrefl(remaining@[0].word@);
        }
        while k < remaining.len()
            invariant
                best < k <= remaining@.len(),
                forall|j: int| 0 <= j < k ==> !ranks_above(#[trigger] remaining@[j], remaining@[best as int]),
            decreases remaining@.len() - k,
        {
            if ranks_above_exec(&remaining[k], &remaining[best]) {
                proof {
                    assert forall|j: int| 0 <= j < k implies !ranks_above(#[trigger] remaining@[j], remaining@[k as int]) by {
                        if ranks_above(remaining@[j], remaining@[k as int]) {
                            lemma_ranks_trans(remaining@[j], remaining@[k as int], remaining@[best as int]);
                        }
                    }
                    lemma_word_less_irrefl(remaining@[k as int].word@);
                }
                best = k;
            }
            k = k + 1;
        }
        let ghost old_out = out@;
        let ghost old_rem = remaining@;
        let chosen = remaining.remove(best);
        out.push(chosen);
        proof {
            assert(out@ == old_out.push(old_rem[best as int]));
            assert(remaining@ == old_rem.remove(best as int));
            assert forall|a: int, b: int| 0 <= a < b < out@.len() implies #[trigger] word_at(out@, a) != #[trigger] word_at(out@, b) by {
                if b < old_out.len() {
                    assert(word_at(old_out, a) != word_at(old_out, b));
                } else {
                    assert(word_at(old_out, a) != word_at(old_rem, best as int));
                }
            }
            assert forall|a: int, b: int| 0 <= a < b < remaining@.len() implies #[trigger] word_at(remaining@, a) != #[trigger] word_at(remaining@, b) by {
                let a2 = if a < best { a } else { a + 1 };
                let b2 = if b < best { b } else { b + 1 };
                assert(word_at(old_rem, a2) != word_at(old_rem, b2));
            }
            assert forall|a: int, b: int| 0 <= a < out@.len() && 0 <= b < remaining@.len() implies #[trigger] word_at(out@, a) != #[trigger] word_at(remaining@, b) by {
                let b2 = if b < best { b } else { b + 1 };
                if a < old_out.len() {
                    assert(word_at(old_out, a) != word_at(old_rem, b2));
                } else {
                    assert(word_at(old_rem, best as int) != word_at(old_rem, b2));
                }
            }
            assert forall|i: int, j: int| 0 <= i < j < out@.len() implies !ranks_above(#[trigger] out@[j], #[trigger] out@[i]) by {
                if j < old_out.len() {
                } else {
                    assert(!ranks_above(old_rem[best as int], old_out[i]));
                }
            }
            assert forall|a: int, b: int| 0 <= a < out@.len() && 0 <= b < remaining@.len() implies !ranks_above(#[trigger] remaining@[b], #[trigger] out@[a]) by {
                let b2 = if b < best { b } else { b + 1 };
                assert(remaining@[b] == old_rem[b2]);
                if a < old_out.len() {
                    assert(!ranks_above(old_rem[b2], old_out[a]));
                } else {
                    assert(!ranks_above(old_rem[b2], old_rem[best as int]));
                }
            }
            assert forall|w: Seq<char>| word_total(es, w) > 0 implies has_word(out@, w) || has_word(remaining@, w) by {
                if has_word(old_out, w) {
                    let k = choose|k: int| 0 <= k < old_out.len() && word_at(old_out, k) == w;
                    assert(word_at(out@, k) == w);
                } else {
                    assert(has_word(old_rem, w));
                    let k = choose|k: int| 0 <= k < old_rem.len() && word_at(old_rem, k) == w;
                    if k == best {
                        assert(word_at(out@, old_out.len() as int) == w);
                    } else if k < best {
                        assert(word_at(remaining@, k) == w);
                    } else {
                        assert(word_at(remaining@, k - 1) == w);
                    }
                }
            }
            assert forall|k: int| 0 <= k < remaining@.len() implies exact_for(#[trigger] remaining@[k], es) by {
                let k2 = if k < best { k } else { k + 1 };
                assert(remaining@[k] == old_rem[k2]);
            }
        }
    }
    proof {
        assert forall|w: Seq<char>| word_total(es, w) > 0 && !has_word(out@, w) implies {
            &&& out@.len() == limit
            &&& forall|k: int| 0 <= k < out@.len() ==> !outranks((w, word_total(es, w), word_errors(es, w)), key(#[trigger] out@[k]))
        } by {
            assert(has_word(remaining@, w));
            let b = choose|b: int| 0 <= b < remaining@.len() && word_at(remaining@, b) == w;
            assert(exact_for(remaining@[b], es));
            assert forall|k: int| 0 <= k < out@.len() implies !outranks((w, word_total(es, w), word_errors(es, w)), key(#[trigger] out@[k])) by {
                assert(!ranks_above(remaining@[b], out@[k]));
            }
        }
        assert forall|a: int, b: int| 0 <= a < b < out@.len() implies (#[trigger] out@[a]).count >= (#[trigger] out@[b]).count
            && (out@[a].count == out@[b].count ==> out@[a].error_count * out@[b].count >= out@[b].error_count * out@[a].count) by {
            assert(!ranks_above(out@[b], out@[a]));
            if out@[a].count == out@[b].count {
                let c = out@[a].count as int;
                assert(out@[a].error_count >= out@[b].error_count);
                assert(out@[a].error_count * c >= out@[b].error_count * c) by (nonlinear_arith)
                    requires
                        out@[a].error_count >= out@[b].error_count,
                        c >= 0,
                ;
            }
        }
    }
    out
}


/// Whether the messages of `entries` hold no more characters in all than a
/// `usize` counts.
pub fn message_chars_fit(entries: &[LogEntry]) -> (r: bool)
    ensures
        r == (message_chars(entries@) <= usize::MAX),
{
    let n = entries.len();
    let mut total: usize = 0;
    let mut i: usize = 0;
    assert(entries@.subrange(0, 0) =~= Seq::<LogEntry>::empty());
    while i < n
        invariant
            i <= n == entries@.len(),
            total == message_chars(entries@.subrange(0, i as int)),
        decreases n - i,
    {
        assert(entries@.subrange(0, i + 1).drop_last() =~= entries@.subrange(0, i as int));
        assert(entries@.subrange(0, i + 1).last() == entries@[i as int]);
        let len = entries[i].message.as_str().unicode_len();
        if len > usize::MAX - total {
            proof {
                lemma_message_chars_prefix(entries@, i + 1);
            }
            return false;
        }
        total = total + len;
        i = i + 1;
    }
    assert(entries@.subrange(0, n as int) =~= entries@);
    true
}

/// Counts over a corpus are those over the corpus without entry `j`, plus that entry's.
proof fn lemma_counts_remove(es: Seq<LogEntry>, j: int, w: Seq<char>)
    requires
        0 <= j < es.len(),
    ensures
        word_total(es, w) == word_total(es.remove(j), w) + occurrences(keywords_of(es[j].message@), w),
        word_errors(es, w) == word_errors(es.remove(j), w) + if is_error_level(es[j].level) {
            occurrences(keywords_of(es[j].message@), w)
        } else {
            0nat
        },
{
    let a = es.subrange(0, j);
    let one = seq![es[j]];
    let b = es.subrange(j + 1, es.len() as int);
    assert(es =~= a + (one + b));
    assert(es.remove(j) =~= a + b);
    assert(one.drop_last() =~= Seq::<LogEntry>::empty());
    assert(one.last() == es[j]);
    assert(word_total(one, w) == word_total(one.drop_last(), w) + occurrences(keywords_of(es[j].message@), w));
    assert(word_errors(one, w) == word_errors(one.drop_last(), w) + if is_error_level(es[j].level) {
        occurrences(keywords_of(es[j].message@), w)
    } else {
        0nat
    });
    assert(word_total(Seq::<LogEntry>::empty(), w) == 0);
    assert(word_errors(Seq::<LogEntry>::empty(), w) == 0);
    lemma_counts_append(a, one + b, w);
    lemma_counts_append(one, b, w);
    lemma_counts_append(a, b, w);
}

/// Reordering the entries of a corpus changes no keyword's counts, overall or
/// on errors.
pub proof fn lemma_permutation_counts(a: Seq<LogEntry>, b: Seq<LogEntry>, w: Seq<char>)
    requires
        a.to_multiset() == b.to_multiset(),
    ensures
        word_total(a, w) == word_total(b, w),
        word_errors(a, w) == word_errors(b, w),
    decreases a.len(),
{
    broadcast use vstd::seq_lib::group_to_multiset_ensures;

    vstd::seq_lib::to_multiset_len(a);
    vstd::seq_lib::to_multiset_len(b);
    if a.len() == 0 {
        assert(b.len() == 0);
        assert(a =~= b);
    } else {
        let x = a.last();
        assert(a.contains(x)) by {
            assert(a[a.len() - 1] == x);
        }
        vstd::seq_lib::to_multiset_contains(a, x);
        vstd::seq_lib::to_multiset_contains(b, x);
        assert(b.contains(x));
        let j = choose|j: int| 0 <= j < b.len() && b[j] == x;
        vstd::seq_lib::to_multiset_remove(b, j);
        assert(a.drop_last().push(x) =~= a);
        vstd::seq_lib::to_multiset_build(a.drop_last(), x);
        assert(a.drop_last().to_multiset() =~= a.to_multiset().remove(x));
        lemma_permutation_counts(a.drop_last(), b.remove(j), w);
        lemma_counts_remove(b, j, w);
    }
}

} // verus!
