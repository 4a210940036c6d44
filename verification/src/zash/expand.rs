//! What a typed line means: variables and the home directory take the place of
//! their names, word by word.
use crate::bytes::{self, append, SPACE};
use crate::env::{self, is_name_byte, is_name_start};
use crate::startup::{self, Start};
use vstd::prelude::*;

verus! {

/// The most bytes of a line, with one more for what ends it.
pub const LINE_MAX: usize = 128;

/// Where the name that goes through `from` ends.
pub open spec fn name_end(word: Seq<u8>, from: int) -> int
    decreases word.len() - from,
{
    if from < word.len() && env::in_name(word[from]) {
        name_end(word, from + 1)
    } else {
        from
    }
}

/// Whether a variable begins at `at`: a dollar sign before the beginning of a
/// name. Any other dollar sign is an ordinary byte.
pub open spec fn variable_at(word: Seq<u8>, at: int) -> bool {
    word[at] == '$' as u8 && at + 1 < word.len() && env::begins_name(word[at + 1])
}

/// The value of a variable; nothing for one that is not defined.
pub open spec fn value_or_nothing(start: Start, name: Seq<u8>) -> Seq<u8> {
    match start.spec_value(name) {
        Some(value) => value,
        None => Seq::empty(),
    }
}

/// A word with its variables expanded, from `at` on.
pub open spec fn expanded_from(start: Start, word: Seq<u8>, at: int) -> Seq<u8>
    decreases word.len() - at,
{
    if at >= word.len() {
        Seq::empty()
    } else if !variable_at(word, at) {
        seq![word[at]] + expanded_from(start, word, at + 1)
    } else {
        let end = name_end(word, at + 1);
        if end <= at || end > word.len() {
            Seq::empty()
        } else {
            value_or_nothing(start, word.subrange(at + 1, end)) + expanded_from(start, word, end)
        }
    }
}

/// Whether a word begins with the home directory: a tilde alone, or before a
/// slash.
pub open spec fn begins_at_home(word: Seq<u8>) -> bool {
    word.len() > 0 && word[0] == '~' as u8 && (word.len() == 1 || word[1] == '/' as u8)
}

/// A word expanded. Without a home directory the tilde stays.
pub open spec fn expanded(start: Start, word: Seq<u8>) -> Seq<u8> {
    match start.spec_value(bytes::ascii("HOME"@)) {
        Some(home) => if begins_at_home(word) {
            home + expanded_from(start, word, 1)
        } else {
            expanded_from(start, word, 0)
        },
        None => expanded_from(start, word, 0),
    }
}

proof fn lemma_name_end(word: Seq<u8>, from: int)
    requires
        0 <= from <= word.len(),
    ensures
        from <= name_end(word, from) <= word.len(),
        forall|i: int| from <= i < name_end(word, from) ==> env::in_name(#[trigger] word[i]),
        name_end(word, from) < word.len() ==> !env::in_name(word[name_end(word, from)]),
    decreases word.len() - from,
{
    if from < word.len() && env::in_name(word[from]) {
        lemma_name_end(word, from + 1);
    }
}

/// A word expanded; nothing where it gets longer than a line.
pub fn expand_word(start: &Start, word: &[u8]) -> (r: Option<Vec<u8>>)
    requires
        start.wf(),
    ensures
        r is Some <==> expanded(*start, word@).len() <= LINE_MAX,
        r matches Some(out) ==> out@ == expanded(*start, word@),
{
    proof {
        reveal_strlit("HOME");
    }
    let mut out: Vec<u8> = Vec::new();
    let mut at: usize = 0;
    let ghost whole = expanded(*start, word@);
    if word.len() > 0 && word[0] == '~' as u8 && (word.len() == 1 || word[1] == '/' as u8) {
        let name = crate::bytes::bytes_of("HOME");
        match start.value(name.as_slice()) {
            Some(home) => {
                append(&mut out, home.as_slice());
                at = 1;
            },
            None => {},
        }
    }
    assert(out@ + expanded_from(*start, word@, at as int) =~= whole);
    while at < word.len()
        invariant
            at <= word@.len(),
            start.wf(),
            whole == expanded(*start, word@),
            whole == out@ + expanded_from(*start, word@, at as int),
        decreases word@.len() - at,
    {
        if out.len() > LINE_MAX {
            return None;
        }
        let ghost before = out@;
        if word[at] != '$' as u8 || word.len() - at <= 1 || !is_name_start(word[at + 1]) {
            out.push(word[at]);
            assert(before + (seq![word@[at as int]] + expanded_from(*start, word@, at + 1))
                =~= out@ + expanded_from(*start, word@, at + 1));
            at += 1;
        } else {
            let from: usize = at + 1;
            let mut end: usize = from;
            while end < word.len() && is_name_byte(word[end])
                invariant
                    from <= end <= word@.len(),
                    name_end(word@, from as int) == name_end(word@, end as int),
                decreases word@.len() - end,
            {
                end += 1;
            }
            proof {
                lemma_name_end(word@, from as int);
            }
            match start.value(&word[from..end]) {
                Some(value) => {
                    append(&mut out, value.as_slice());
                },
                None => {},
            }
            assert(before + (value_or_nothing(
                *start,
                word@.subrange(from as int, end as int),
            ) + expanded_from(*start, word@, end as int)) =~= out@ + expanded_from(
                *start,
                word@,
                end as int,
            ));
            at = end;
        }
    }
    assert(out@ =~= whole);
    if out.len() > LINE_MAX {
        return None;
    }
    Some(out)
}

/// Where the spaces from `from` on end.
pub open spec fn past_spaces(line: Seq<u8>, from: int) -> int
    decreases line.len() - from,
{
    if from < line.len() && line[from] == SPACE {
        past_spaces(line, from + 1)
    } else {
        from
    }
}

/// The words of a line from `from` on: what stands between spaces.
pub open spec fn words_from(line: Seq<u8>, from: int) -> Seq<Seq<u8>>
    decreases line.len() - from,
{
    let at = past_spaces(line, from);
    if at < from || at >= line.len() {
        Seq::empty()
    } else {
        let end = bytes::first_at(line, SPACE, at);
        if end <= at || end > line.len() {
            Seq::empty()
        } else {
            seq![line.subrange(at, end)] + words_from(line, end)
        }
    }
}

/// The spaces end inside the line, and where they end there is none.
pub proof fn lemma_past_spaces(line: Seq<u8>, from: int)
    requires
        0 <= from <= line.len(),
    ensures
        from <= past_spaces(line, from) <= line.len(),
        past_spaces(line, from) < line.len() ==> line[past_spaces(line, from)] != SPACE,
    decreases line.len() - from,
{
    if from < line.len() && line[from] == SPACE {
        lemma_past_spaces(line, from + 1);
    }
}

/// Words expanded, those that came to nothing left out.
pub open spec fn kept_words(start: Start, words: Seq<Seq<u8>>) -> Seq<Seq<u8>>
    decreases words.len(),
{
    if words.len() == 0 {
        Seq::empty()
    } else {
        let word = expanded(start, words[0]);
        let rest = kept_words(start, words.skip(1));
        if word.len() == 0 {
            rest
        } else {
            seq![word] + rest
        }
    }
}

/// The words of a line expanded, those that came to nothing left out. What a
/// variable stands for is not divided again.
pub open spec fn expanded_words(start: Start, line: Seq<u8>) -> Seq<Seq<u8>> {
    kept_words(start, words_from(line, 0))
}

/// The length of words with one space between them, behind `front` bytes.
pub open spec fn length_with(front: int, words: Seq<Seq<u8>>) -> int
    decreases words.len(),
{
    if words.len() == 0 {
        front
    } else {
        length_with(
            if front == 0 {
                words[0].len() as int
            } else {
                front + 1 + words[0].len()
            },
            words.skip(1),
        )
    }
}

/// The length of words as a line, with one space between them.
pub open spec fn line_length(words: Seq<Seq<u8>>) -> int {
    length_with(0, words)
}

/// What is put together only gets longer.
proof fn lemma_length_grows(front: int, words: Seq<Seq<u8>>)
    requires
        0 <= front,
    ensures
        length_with(front, words) >= front,
    decreases words.len(),
{
    if words.len() > 0 {
        let longer = if front == 0 {
            words[0].len() as int
        } else {
            front + 1 + words[0].len()
        };
        lemma_length_grows(longer, words.skip(1));
    }
}

/// The words of a line expanded; nothing where they get longer than a line.
pub fn expand_line(start: &Start, line: &[u8]) -> (r: Option<Vec<Vec<u8>>>)
    requires
        start.wf(),
    ensures
        r is Some <==> line_length(expanded_words(*start, line@)) <= LINE_MAX,
        r matches Some(words) ==> startup::strings(words@) == expanded_words(*start, line@),
{
    let mut words: Vec<Vec<u8>> = Vec::new();
    let mut used: usize = 0;
    let mut at: usize = 0;
    let ghost whole = expanded_words(*start, line@);
    assert(startup::strings(words@) + whole =~= whole);
    while at < line.len()
        invariant
            at <= line@.len(),
            start.wf(),
            used <= LINE_MAX,
            whole == expanded_words(*start, line@),
            whole == startup::strings(words@) + kept_words(*start, words_from(line@, at as int)),
            line_length(whole) == length_with(
                used as int,
                kept_words(*start, words_from(line@, at as int)),
            ),
        ensures
            used <= LINE_MAX,
            line_length(whole) == used,
            whole == startup::strings(words@),
        decreases line@.len() - at,
    {
        let ghost from = at as int;
        let ghost before = startup::strings(words@);
        while at < line.len() && line[at] == SPACE
            invariant
                from <= at <= line@.len(),
                past_spaces(line@, from) == past_spaces(line@, at as int),
            decreases line@.len() - at,
        {
            at += 1;
        }
        if at >= line.len() {
            assert(words_from(line@, from) =~= Seq::<Seq<u8>>::empty());
            assert(before + Seq::<Seq<u8>>::empty() =~= before);
            break;
        }
        let begin: usize = at;
        let end: usize = crate::bytes::find(line, SPACE, begin);
        proof {
            bytes::lemma_first_at(line@, SPACE, begin as int);
        }
        let ghost word = line@.subrange(begin as int, end as int);
        let ghost rest = words_from(line@, end as int);
        let ghost kept = kept_words(*start, rest);
        proof {
            assert(words_from(line@, from) == seq![word] + rest);
            assert((seq![word] + rest).skip(1) =~= rest);
            assert((seq![word] + rest)[0] == word);
            let text = expanded(*start, word);
            assert((seq![text] + kept).skip(1) =~= kept);
            assert((seq![text] + kept)[0] == text);
            lemma_length_grows(
                if used == 0 {
                    text.len() as int
                } else {
                    used + 1 + text.len()
                },
                kept,
            );
        }
        match expand_word(start, &line[begin..end]) {
            None => {
                return None;
            },
            Some(text) => {
                if text.len() > 0 {
                    let gap: usize = if used > 0 {
                        1
                    } else {
                        0
                    };
                    if text.len() > LINE_MAX - used || gap > LINE_MAX - used - text.len() {
                        return None;
                    }
                    used = used + gap + text.len();
                    let ghost shown = text@;
                    words.push(text);
                    assert(startup::strings(words@) =~= before.push(shown));
                    assert(before + (seq![shown] + kept) =~= startup::strings(words@) + kept);
                }
            },
        }
        at = end;
        proof {
            if at == line@.len() {
                assert(words_from(line@, at as int) =~= Seq::<Seq<u8>>::empty());
                assert(startup::strings(words@) + Seq::<Seq<u8>>::empty() =~= startup::strings(
                    words@,
                ));
            }
        }
    }
    Some(words)
}

/// A word without a dollar sign and without a tilde at its front means itself.
pub proof fn plain_word_means_itself(start: Start, word: Seq<u8>)
    requires
        !word.contains('$' as u8),
        word.len() > 0 ==> word[0] != '~' as u8,
    ensures
        expanded(start, word) == word,
{
    lemma_plain_from(start, word, 0);
    assert(word.skip(0) =~= word);
}

proof fn lemma_plain_from(start: Start, word: Seq<u8>, at: int)
    requires
        !word.contains('$' as u8),
        0 <= at <= word.len(),
    ensures
        expanded_from(start, word, at) == word.skip(at),
    decreases word.len() - at,
{
    if at < word.len() {
        assert(word.contains(word[at]));
        lemma_plain_from(start, word, at + 1);
        assert(word.skip(at) =~= seq![word[at]] + word.skip(at + 1));
    } else {
        assert(word.skip(at) =~= Seq::<u8>::empty());
    }
}

/// Every name that an environment line can have is expanded: a dollar sign
/// before it stands for its value.
pub proof fn every_name_is_expanded(start: Start, name: Seq<u8>)
    requires
        env::is_name(name),
    ensures
        expanded(start, seq!['$' as u8] + name) == value_or_nothing(start, name),
{
    let word = seq!['$' as u8] + name;
    lemma_name_end(word, 1);
    let end = name_end(word, 1);
    if end < word.len() {
        assert(word[end] == name[end - 1]);
        assert(env::in_name(name[end - 1]));
    }
    assert(word.subrange(1, end) =~= name);
    assert(word[1] == name[0]);
    assert(expanded_from(start, word, end) =~= Seq::<u8>::empty());
    assert(value_or_nothing(start, name) + Seq::<u8>::empty() =~= value_or_nothing(start, name));
}

/// A value is not expanded again: what a variable stands for is its value as it
/// is.
pub proof fn values_are_not_expanded_again(start: Start, name: Seq<u8>, value: Seq<u8>)
    requires
        env::is_name(name),
        start.spec_value(name) == Some(value),
    ensures
        expanded(start, seq!['$' as u8] + name) == value,
{
    every_name_is_expanded(start, name);
}

/// How many words come to something when they are expanded.
pub open spec fn words_left(start: Start, words: Seq<Seq<u8>>) -> int
    decreases words.len(),
{
    if words.len() == 0 {
        0
    } else {
        words_left(start, words.skip(1)) + (if expanded(start, words[0]).len() > 0 {
            1int
        } else {
            0
        })
    }
}

/// A value adds no words, whatever stands in it: a line comes to as many words as
/// it has words that come to something, and each of those is one of its words
/// expanded.
pub proof fn values_add_no_words(start: Start, line: Seq<u8>)
    ensures
        expanded_words(start, line).len() == words_left(start, words_from(line, 0)),
        expanded_words(start, line).len() <= words_from(line, 0).len(),
        forall|i: int|
            0 <= i < expanded_words(start, line).len() ==> exists|k: int|
                0 <= k < words_from(line, 0).len() && #[trigger] expanded_words(start, line)[i]
                    == expanded(start, #[trigger] words_from(line, 0)[k]),
{
    lemma_kept_words(start, words_from(line, 0));
}

proof fn lemma_kept_words(start: Start, words: Seq<Seq<u8>>)
    ensures
        kept_words(start, words).len() == words_left(start, words),
        kept_words(start, words).len() <= words.len(),
        forall|i: int|
            0 <= i < kept_words(start, words).len() ==> exists|k: int|
                0 <= k < words.len() && #[trigger] kept_words(start, words)[i] == expanded(
                    start,
                    #[trigger] words[k],
                ),
    decreases words.len(),
{
    if words.len() > 0 {
        let rest = words.skip(1);
        lemma_kept_words(start, rest);
        let kept = kept_words(start, words);
        let fewer = kept_words(start, rest);
        let first = expanded(start, words[0]);
        assert forall|i: int| 0 <= i < kept.len() implies exists|k: int|
            0 <= k < words.len() && #[trigger] kept[i] == expanded(start, #[trigger] words[k]) by {
            if first.len() > 0 && i == 0 {
                assert(kept[0] == expanded(start, words[0]));
            } else {
                let j = if first.len() > 0 {
                    i - 1
                } else {
                    i
                };
                assert(kept[i] == fewer[j]);
                let k = choose|k: int|
                    0 <= k < rest.len() && fewer[j] == expanded(start, #[trigger] rest[k]);
                assert(rest[k] == words[k + 1]);
                assert(kept[i] == expanded(start, words[k + 1]));
            }
        }
    }
}

/// A line of one word that is a variable is one word, though its value holds
/// spaces.
pub proof fn a_variable_is_one_word(start: Start, name: Seq<u8>, value: Seq<u8>)
    requires
        env::is_name(name),
        start.spec_value(name) == Some(value),
        value.len() > 0,
    ensures
        expanded_words(start, seq!['$' as u8] + name) == seq![value],
{
    let line = seq!['$' as u8] + name;
    values_are_not_expanded_again(start, name, value);
    assert forall|i: int| 0 <= i < line.len() implies line[i] != SPACE by {
        if i > 0 {
            assert(line[i] == name[i - 1]);
            assert(env::in_name(name[i - 1]));
        }
    }
    assert(line[0] != SPACE);
    bytes::lemma_first_at_is(line, SPACE, 0, line.len() as int);
    assert(line.subrange(0, line.len() as int) =~= line);
    let rest = words_from(line, line.len() as int);
    assert(rest =~= Seq::<Seq<u8>>::empty());
    assert(words_from(line, 0) =~= seq![line]);
    assert(seq![line].skip(1) =~= Seq::<Seq<u8>>::empty());
    assert(kept_words(start, seq![line].skip(1)) =~= Seq::<Seq<u8>>::empty());
    assert(kept_words(start, seq![line]) =~= seq![value]);
}

/// What stands behind a place in a word does not depend on what stands before
/// it.
proof fn lemma_expanded_shift(start: Start, a: Seq<u8>, b: Seq<u8>, at: int)
    requires
        0 <= at <= b.len(),
    ensures
        expanded_from(start, a + b, a.len() + at) == expanded_from(start, b, at),
    decreases b.len() - at,
{
    let whole = a + b;
    if at < b.len() {
        assert(whole[a.len() + at] == b[at]);
        assert(at + 1 < b.len() ==> whole[a.len() + at + 1] == b[at + 1]);
        if variable_at(b, at) {
            lemma_name_end(b, at + 1);
            lemma_name_end_shift(a, b, at + 1);
            let end = name_end(b, at + 1);
            assert(whole.subrange(a.len() + at + 1, a.len() + end) =~= b.subrange(at + 1, end));
            lemma_expanded_shift(start, a, b, end);
        } else {
            lemma_expanded_shift(start, a, b, at + 1);
        }
    }
}

proof fn lemma_name_end_shift(a: Seq<u8>, b: Seq<u8>, at: int)
    requires
        0 <= at <= b.len(),
    ensures
        name_end(a + b, a.len() + at) == a.len() + name_end(b, at),
    decreases b.len() - at,
{
    if at < b.len() {
        assert((a + b)[a.len() + at] == b[at]);
        if env::in_name(b[at]) {
            lemma_name_end_shift(a, b, at + 1);
        }
    }
}

/// A name that ends in the first part ends there in the whole word too.
proof fn lemma_name_end_before(a: Seq<u8>, b: Seq<u8>, at: int)
    requires
        0 <= at <= a.len(),
        b.len() > 0 ==> !env::in_name(b[0]),
    ensures
        name_end(a + b, at) == name_end(a, at),
    decreases a.len() - at,
{
    if at < a.len() {
        assert((a + b)[at] == a[at]);
        if env::in_name(a[at]) {
            lemma_name_end_before(a, b, at + 1);
        }
    } else if b.len() > 0 {
        assert((a + b)[at] == b[0]);
    }
}

proof fn lemma_expanded_two(start: Start, a: Seq<u8>, b: Seq<u8>, at: int)
    requires
        0 <= at <= a.len(),
        b.len() > 0 ==> !env::in_name(b[0]),
    ensures
        expanded_from(start, a + b, at) == expanded_from(start, a, at) + expanded_from(start, b, 0),
    decreases a.len() - at,
{
    let whole = a + b;
    let rest = expanded_from(start, b, 0);
    if at >= a.len() {
        lemma_expanded_shift(start, a, b, 0);
        assert(Seq::<u8>::empty() + rest =~= rest);
    } else {
        assert(whole[at] == a[at]);
        if at + 1 < a.len() {
            assert(whole[at + 1] == a[at + 1]);
        } else if b.len() > 0 {
            assert(whole[at + 1] == b[0]);
        }
        if variable_at(a, at) {
            lemma_name_end(a, at + 1);
            lemma_name_end_before(a, b, at + 1);
            let end = name_end(a, at + 1);
            assert(whole.subrange(at + 1, end) =~= a.subrange(at + 1, end));
            lemma_expanded_two(start, a, b, end);
            let value = value_or_nothing(start, a.subrange(at + 1, end));
            assert(value + (expanded_from(start, a, end) + rest) =~= value + expanded_from(
                start,
                a,
                end,
            ) + rest);
        } else {
            lemma_expanded_two(start, a, b, at + 1);
            assert(seq![a[at]] + (expanded_from(start, a, at + 1) + rest) =~= seq![a[at]]
                + expanded_from(start, a, at + 1) + rest);
        }
    }
}

/// A word is expanded piece by piece: where no name goes across a place, what is
/// before it and what is behind it are expanded each by itself. A tilde has its
/// meaning only at the front of a word.
pub proof fn words_are_expanded_piece_by_piece(start: Start, a: Seq<u8>, b: Seq<u8>)
    requires
        a.len() > 0,
        b.len() > 0 ==> !env::in_name(b[0]) && b[0] != '~' as u8,
        a == seq!['~' as u8] && b.len() > 0 ==> b[0] == '/' as u8,
    ensures
        expanded(start, a + b) == expanded(start, a) + expanded(start, b),
{
    let whole = a + b;
    assert(whole[0] == a[0]);
    if a.len() > 1 {
        assert(whole[1] == a[1]);
    } else if b.len() > 0 {
        assert(whole[1] == b[0]);
        if a[0] == '~' as u8 {
            assert(a =~= seq!['~' as u8]);
        }
    }
    lemma_expanded_two(start, a, b, 0);
    lemma_expanded_two(start, a, b, 1);
    assert(expanded(start, b) == expanded_from(start, b, 0));
    match start.spec_value(bytes::ascii("HOME"@)) {
        Some(home) => {
            assert(home + (expanded_from(start, a, 1) + expanded_from(start, b, 0)) =~= home
                + expanded_from(start, a, 1) + expanded_from(start, b, 0));
        },
        None => {},
    }
}

/// A variable inside a word leaves the rest of the word alone: a name gives way to
/// its value, or to nothing where it is not defined, and the text before and
/// behind it stays.
pub proof fn a_variable_leaves_the_rest_alone(
    start: Start,
    before: Seq<u8>,
    name: Seq<u8>,
    behind: Seq<u8>,
)
    requires
        env::is_name(name),
        !before.contains('$' as u8),
        before.len() > 0 ==> before[0] != '~' as u8,
        !behind.contains('$' as u8),
        behind.len() > 0 ==> !env::in_name(behind[0]),
    ensures
        start.spec_value(name) matches Some(value) ==> expanded(
            start,
            before + seq!['$' as u8] + name + behind,
        ) == before + value + behind,
        start.spec_value(name) is None ==> expanded(
            start,
            before + seq!['$' as u8] + name + behind,
        ) == before + behind,
{
    let dollar = seq!['$' as u8];
    let variable = dollar + name;
    let tail = variable + behind;
    let whole = before + dollar + name + behind;
    assert(whole =~= before + tail);
    assert(tail[0] == '$' as u8);
    every_name_is_expanded(start, name);
    assert(variable[0] == '$' as u8);
    lemma_expanded_two(start, variable, behind, 0);
    lemma_plain_from(start, behind, 0);
    assert(behind.skip(0) =~= behind);
    assert(expanded(start, variable) == expanded_from(start, variable, 0));
    assert(expanded_from(start, tail, 0) == value_or_nothing(start, name) + behind);
    assert(!env::in_name('$' as u8));
    lemma_expanded_two(start, before, tail, 0);
    plain_word_means_itself(start, before);
    if before.len() > 0 {
        assert(whole[0] == before[0]);
        assert(expanded(start, before) == expanded_from(start, before, 0));
    } else {
        assert(whole =~= tail);
        assert(expanded_from(start, before, 0) =~= before);
    }
    assert(expanded(start, whole) == expanded_from(start, whole, 0));
    assert(expanded(start, whole) == before + (value_or_nothing(start, name) + behind));
    match start.spec_value(name) {
        Some(value) => {
            assert(before + (value + behind) =~= before + value + behind);
        },
        None => {
            assert(before + (Seq::<u8>::empty() + behind) =~= before + behind);
        },
    }
}

/// A dollar sign that begins no name is an ordinary byte.
pub proof fn a_lone_dollar_sign_stays(start: Start, before: Seq<u8>, behind: Seq<u8>)
    requires
        !before.contains('$' as u8),
        before.len() > 0 ==> before[0] != '~' as u8,
        !behind.contains('$' as u8),
        behind.len() > 0 ==> !env::begins_name(behind[0]),
    ensures
        expanded(start, before + seq!['$' as u8] + behind) == before + seq!['$' as u8] + behind,
{
    let dollar = seq!['$' as u8];
    let tail = dollar + behind;
    let whole = before + dollar + behind;
    assert(whole =~= before + tail);
    assert(behind.len() > 0 ==> tail[1] == behind[0]);
    assert(!variable_at(tail, 0));
    lemma_expanded_shift(start, dollar, behind, 0);
    lemma_plain_from(start, behind, 0);
    assert(behind.skip(0) =~= behind);
    assert(expanded_from(start, tail, 0) == seq![tail[0]] + behind);
    assert(seq![tail[0]] + behind =~= tail);
    assert(!env::in_name('$' as u8));
    assert(tail[0] == '$' as u8);
    lemma_expanded_two(start, before, tail, 0);
    lemma_plain_from(start, before, 0);
    assert(before.skip(0) =~= before);
    if before.len() > 0 {
        assert(whole[0] == before[0]);
    } else {
        assert(whole[0] == '$' as u8);
    }
    assert(expanded(start, whole) == expanded_from(start, whole, 0));
}

/// A tilde at the front of a word, alone or before a slash, is the home
/// directory; without one it stays, and so does a tilde before anything else.
pub proof fn a_tilde_is_the_home_directory(start: Start, rest: Seq<u8>)
    requires
        !rest.contains('$' as u8),
    ensures
        rest.len() == 0 || rest[0] == '/' as u8 ==> (start.spec_value(
            bytes::ascii("HOME"@),
        ) matches Some(home) ==> expanded(start, seq!['~' as u8] + rest) == home + rest),
        rest.len() == 0 || rest[0] == '/' as u8 ==> (start.spec_value(
            bytes::ascii("HOME"@),
        ) is None ==> expanded(start, seq!['~' as u8] + rest) == seq!['~' as u8] + rest),
        rest.len() > 0 && rest[0] != '/' as u8 ==> expanded(start, seq!['~' as u8] + rest) == seq![
            '~' as u8,
        ] + rest,
{
    let word = seq!['~' as u8] + rest;
    assert(word[0] == '~' as u8);
    assert(rest.len() > 0 ==> word[1] == rest[0]);
    assert(!word.contains('$' as u8)) by {
        assert forall|i: int| 0 <= i < word.len() implies word[i] != '$' as u8 by {
            if i > 0 {
                assert(rest.contains(rest[i - 1]));
            }
        }
    }
    lemma_plain_from(start, word, 0);
    lemma_plain_from(start, word, 1);
    assert(word.skip(0) =~= word);
    assert(word.skip(1) =~= rest);
}

/// A tilde before anything but a slash stays, and the rest of the word is expanded
/// as it is by itself.
pub proof fn a_tilde_before_a_name_stays(start: Start, rest: Seq<u8>)
    requires
        rest.len() > 0,
        rest[0] != '/' as u8,
        rest[0] != '~' as u8,
    ensures
        expanded(start, seq!['~' as u8] + rest) == seq!['~' as u8] + expanded(start, rest),
{
    let tilde = seq!['~' as u8];
    let word = tilde + rest;
    assert(word[0] == '~' as u8 && word[1] == rest[0]);
    lemma_expanded_shift(start, tilde, rest, 0);
    assert(seq![word[0]] =~= tilde);
}

proof fn lemma_words_shift(a: Seq<u8>, b: Seq<u8>, at: int)
    requires
        0 <= at <= b.len(),
    ensures
        words_from(a + b, a.len() + at) == words_from(b, at),
    decreases b.len() - at,
{
    lemma_past_spaces(b, at);
    lemma_past_spaces_shift(a, b, at);
    let begin = past_spaces(b, at);
    if begin < b.len() {
        bytes::lemma_first_at(b, SPACE, begin);
        let end = bytes::first_at(b, SPACE, begin);
        let whole = a + b;
        bytes::lemma_first_at_is(whole, SPACE, a.len() + begin, a.len() + end);
        assert(whole.subrange(a.len() + begin, a.len() + end) =~= b.subrange(begin, end));
        assert(end > begin);
        lemma_words_shift(a, b, end);
    }
}

proof fn lemma_past_spaces_shift(a: Seq<u8>, b: Seq<u8>, at: int)
    requires
        0 <= at <= b.len(),
    ensures
        past_spaces(a + b, a.len() + at) == a.len() + past_spaces(b, at),
    decreases b.len() - at,
{
    if at < b.len() {
        assert((a + b)[a.len() + at] == b[at]);
        if b[at] == SPACE {
            lemma_past_spaces_shift(a, b, at + 1);
        }
    }
}

/// Spaces before a place, with a space at it, lead past that one.
proof fn lemma_past_spaces_on(a: Seq<u8>, b: Seq<u8>, at: int)
    requires
        0 <= at <= a.len(),
    ensures
        ({
            let whole = a + seq![SPACE] + b;
            if past_spaces(a, at) < a.len() {
                past_spaces(whole, at) == past_spaces(a, at)
            } else {
                past_spaces(whole, at) == past_spaces(whole, a.len() as int + 1)
            }
        }),
    decreases a.len() - at,
{
    let whole = a + seq![SPACE] + b;
    if at < a.len() {
        assert(whole[at] == a[at]);
        if a[at] == SPACE {
            lemma_past_spaces_on(a, b, at + 1);
        }
    } else {
        assert(whole[at] == SPACE);
    }
}

proof fn lemma_words_two(a: Seq<u8>, b: Seq<u8>, at: int)
    requires
        0 <= at <= a.len(),
    ensures
        words_from(a + seq![SPACE] + b, at) == words_from(a, at) + words_from(b, 0),
    decreases a.len() - at,
{
    let whole = a + seq![SPACE] + b;
    let rest = words_from(b, 0);
    lemma_past_spaces(a, at);
    lemma_past_spaces_on(a, b, at);
    let begin = past_spaces(a, at);
    if begin >= a.len() {
        lemma_past_spaces(whole, a.len() as int + 1);
        assert(words_from(whole, at) == words_from(whole, a.len() as int + 1));
        assert(whole =~= (a + seq![SPACE]) + b);
        lemma_words_shift(a + seq![SPACE], b, 0);
        assert(words_from(a, at) =~= Seq::<Seq<u8>>::empty());
        assert(Seq::<Seq<u8>>::empty() + rest =~= rest);
    } else {
        bytes::lemma_first_at(a, SPACE, begin);
        let end = bytes::first_at(a, SPACE, begin);
        assert(whole[a.len() as int] == SPACE);
        bytes::lemma_first_at_is(whole, SPACE, begin, end);
        assert(whole.subrange(begin, end) =~= a.subrange(begin, end));
        assert(end > begin);
        lemma_words_two(a, b, end);
        let word = seq![a.subrange(begin, end)];
        assert(word + (words_from(a, end) + rest) =~= word + words_from(a, end) + rest);
    }
}

/// Words stand between spaces: a text without a space is one word, nothing is no
/// word, and where a space stands, the words before it and those behind it are
/// the words of the line.
pub proof fn words_stand_between_spaces(a: Seq<u8>, b: Seq<u8>)
    ensures
        words_from(a + seq![SPACE] + b, 0) == words_from(a, 0) + words_from(b, 0),
        a.len() > 0 && !a.contains(SPACE) ==> words_from(a, 0) == seq![a],
        a.len() == 0 ==> words_from(a, 0).len() == 0,
{
    lemma_words_two(a, b, 0);
    if a.len() > 0 && !a.contains(SPACE) {
        lemma_one_word(a);
    }
}

proof fn lemma_one_word(a: Seq<u8>)
    requires
        a.len() > 0,
        !a.contains(SPACE),
    ensures
        words_from(a, 0) == seq![a],
{
    assert forall|i: int| 0 <= i < a.len() implies a[i] != SPACE by {
        assert(a.contains(a[i]));
    }
    assert(a[0] != SPACE);
    bytes::lemma_first_at(a, SPACE, 0);
    assert(bytes::first_at(a, SPACE, 0) == a.len());
    assert(a.subrange(0, a.len() as int) =~= a);
    assert(words_from(a, a.len() as int) =~= Seq::<Seq<u8>>::empty());
    assert(words_from(a, 0) =~= seq![a]);
}

proof fn lemma_kept_two(start: Start, a: Seq<Seq<u8>>, b: Seq<Seq<u8>>)
    ensures
        kept_words(start, a + b) == kept_words(start, a) + kept_words(start, b),
    decreases a.len(),
{
    if a.len() == 0 {
        assert(a + b =~= b);
        assert(Seq::<Seq<u8>>::empty() + kept_words(start, b) =~= kept_words(start, b));
    } else {
        assert((a + b).skip(1) =~= a.skip(1) + b);
        assert((a + b)[0] == a[0]);
        lemma_kept_two(start, a.skip(1), b);
        let word = seq![expanded(start, a[0])];
        assert(word + (kept_words(start, a.skip(1)) + kept_words(start, b)) =~= word + kept_words(
            start,
            a.skip(1),
        ) + kept_words(start, b));
    }
}

/// A line is expanded word by word: what stands before a space and what stands
/// behind it give their words one after the other, and a word without a space
/// gives its expansion, or nothing where that is empty.
pub proof fn lines_are_expanded_word_by_word(start: Start, a: Seq<u8>, b: Seq<u8>)
    ensures
        expanded_words(start, a + seq![SPACE] + b) == expanded_words(start, a) + expanded_words(
            start,
            b,
        ),
        a.len() > 0 && !a.contains(SPACE) && expanded(start, a).len() > 0 ==> expanded_words(
            start,
            a,
        ) == seq![expanded(start, a)],
        a.len() > 0 && !a.contains(SPACE) && expanded(start, a).len() == 0 ==> expanded_words(
            start,
            a,
        ).len() == 0,
        a.len() == 0 ==> expanded_words(start, a).len() == 0,
{
    words_stand_between_spaces(a, b);
    lemma_kept_two(start, words_from(a, 0), words_from(b, 0));
    if a.len() > 0 && !a.contains(SPACE) {
        let words = seq![a];
        assert(words.skip(1) =~= Seq::<Seq<u8>>::empty());
        assert(kept_words(start, words.skip(1)) =~= Seq::<Seq<u8>>::empty());
        if expanded(start, a).len() > 0 {
            assert(kept_words(start, words) =~= seq![expanded(start, a)]);
        }
    }
}

/// A line is as long as its words and one space between any two of them: a word
/// more makes it longer by the word and a space.
pub proof fn a_word_makes_the_line_longer(words: Seq<Seq<u8>>, word: Seq<u8>)
    requires
        forall|i: int| 0 <= i < words.len() ==> (#[trigger] words[i]).len() > 0,
        word.len() > 0,
    ensures
        line_length(words.push(word)) == (if words.len() == 0 {
            word.len() as int
        } else {
            line_length(words) + 1 + word.len()
        }),
        line_length(Seq::empty()) == 0,
{
    lemma_length_push(0, words, word);
}

proof fn lemma_length_push(front: int, words: Seq<Seq<u8>>, word: Seq<u8>)
    requires
        0 <= front,
        forall|i: int| 0 <= i < words.len() ==> (#[trigger] words[i]).len() > 0,
        word.len() > 0,
    ensures
        length_with(front, words.push(word)) == (if front == 0 && words.len() == 0 {
            word.len() as int
        } else {
            length_with(front, words) + 1 + word.len()
        }),
    decreases words.len(),
{
    let more = words.push(word);
    if words.len() == 0 {
        assert(more.skip(1) =~= Seq::<Seq<u8>>::empty());
        assert(more[0] == word);
        let next = if front == 0 {
            word.len() as int
        } else {
            front + 1 + word.len()
        };
        assert(length_with(next, more.skip(1)) == next);
    } else {
        assert(more.skip(1) =~= words.skip(1).push(word));
        assert(more[0] == words[0]);
        assert(words[0].len() > 0);
        let next = if front == 0 {
            words[0].len() as int
        } else {
            front + 1 + words[0].len()
        };
        assert forall|i: int| 0 <= i < words.skip(1).len() implies (#[trigger] words.skip(
            1,
        )[i]).len() > 0 by {
            assert(words.skip(1)[i] == words[i + 1]);
        }
        lemma_length_push(next, words.skip(1), word);
    }
}

} // verus!
