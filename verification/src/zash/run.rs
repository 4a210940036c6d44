//! From expanded words to a program: its arguments, where the program is looked
//! for, and what is said when it has ended.
use crate::bytes::{self, append, push_str};
use crate::decimal;
use crate::startup;
use crate::userlib::MINUS_ENOENT;
use vstd::prelude::*;

verus! {

/// The most words of a line.
pub const MAX_ARGS: usize = 8;

/// The longest directory of a path.
pub const DIR_MAX: usize = 32;

/// The longest name that is looked for.
pub const NAME_MAX: usize = 32;

/// The status of a program that the keyboard ended.
pub const SPAWN_INTERRUPTED: i64 = 0x200;

/// A string as the kernel reads it: up to the first zero.
pub open spec fn until_zero(word: Seq<u8>) -> Seq<u8> {
    word.take(bytes::first_at(word, 0, 0))
}

/// The first words, each as the kernel reads it.
pub open spec fn arguments_of(words: Seq<Seq<u8>>) -> Seq<Seq<u8>> {
    Seq::new(
        if words.len() < MAX_ARGS {
            words.len()
        } else {
            MAX_ARGS as nat
        },
        |i: int| until_zero(words[i]),
    )
}

/// The arguments that the words of a line come to: at most as many as a program
/// can be given. What stands behind them is left out.
pub fn run_line(words: &[Vec<u8>]) -> (argv: Vec<Vec<u8>>)
    ensures
        startup::strings(argv@) == arguments_of(startup::strings(words@)),
{
    let mut argv: Vec<Vec<u8>> = Vec::new();
    let ghost all = startup::strings(words@);
    while argv.len() < words.len() && argv.len() < MAX_ARGS
        invariant
            all == startup::strings(words@),
            argv@.len() <= words@.len(),
            argv@.len() <= MAX_ARGS,
            forall|i: int| 0 <= i < argv@.len() ==> (#[trigger] argv@[i])@ == until_zero(all[i]),
        decreases words@.len() - argv@.len(),
    {
        let word = words[argv.len()].as_slice();
        let end: usize = crate::bytes::find(word, 0, 0);
        proof {
            bytes::lemma_first_at(word@, 0, 0);
            assert(word@.subrange(0, end as int) =~= until_zero(word@));
            assert(all[argv@.len() as int] == word@);
        }
        argv.push(crate::bytes::copy_of(&word[0..end]));
    }
    assert(startup::strings(argv@) =~= arguments_of(all));
    argv
}

/// A name in a directory: with one slash between them.
pub open spec fn within(dir: Seq<u8>, name: Seq<u8>) -> Seq<u8> {
    if dir.last() == '/' as u8 {
        dir + name
    } else {
        dir.push('/' as u8) + name
    }
}

/// Where a name is looked for in the directories of a path from `from` on. An
/// empty directory and one that is too long are passed over.
pub open spec fn places_from(path: Seq<u8>, name: Seq<u8>, from: int) -> Seq<Seq<u8>>
    decreases path.len() - from,
{
    if from < 0 || from > path.len() {
        Seq::empty()
    } else {
        let end = bytes::first_at(path, ':' as u8, from);
        let dir = path.subrange(from, end);
        let rest = if end < from || end >= path.len() {
            Seq::empty()
        } else {
            places_from(path, name, end + 1)
        };
        if 0 < dir.len() <= DIR_MAX && name.len() <= NAME_MAX {
            seq![within(dir, name)] + rest
        } else {
            rest
        }
    }
}

/// Where a command is looked for: itself where it holds a slash, else in the
/// directories of the path.
pub open spec fn places(command: Seq<u8>, path: Option<Seq<u8>>) -> Seq<Seq<u8>> {
    if command.contains('/' as u8) {
        seq![command]
    } else {
        match path {
            None => Seq::empty(),
            Some(path) => places_from(path, command, 0),
        }
    }
}

/// Where a command is looked for.
pub fn spawn_via_path(command: &[u8], path: Option<&[u8]>) -> (r: Vec<Vec<u8>>)
    ensures
        startup::strings(r@) == places(
            command@,
            match path {
                None => None,
                Some(path) => Some(path@),
            },
        ),
{
    let mut r: Vec<Vec<u8>> = Vec::new();
    let slash: usize = crate::bytes::find(command, '/' as u8, 0);
    proof {
        bytes::lemma_first_at(command@, '/' as u8, 0);
    }
    if slash < command.len() {
        assert(command@.contains(command@[slash as int]));
        r.push(crate::bytes::copy_of(command));
        assert(startup::strings(r@) =~= seq![command@]);
        return r;
    }
    assert(!command@.contains('/' as u8));
    let path = match path {
        Some(path) => path,
        None => {
            assert(startup::strings(r@) =~= Seq::<Seq<u8>>::empty());
            return r;
        },
    };
    let total: usize = path.len();
    let mut from: usize = 0;
    let ghost all = places_from(path@, command@, 0);
    let mut ended: bool = false;
    assert(startup::strings(r@) + all =~= all);
    while !ended
        invariant
            total == path@.len(),
            !ended ==> from <= total,
            all == startup::strings(r@) + (if ended {
                Seq::empty()
            } else {
                places_from(path@, command@, from as int)
            }),
        decreases total - from + (if ended { 0int } else { 1int }),
    {
        let end: usize = crate::bytes::find(path, ':' as u8, from);
        proof {
            bytes::lemma_first_at(path@, ':' as u8, from as int);
        }
        let ghost before = startup::strings(r@);
        let ghost rest = if end == total {
            Seq::empty()
        } else {
            places_from(path@, command@, end + 1)
        };
        let dir = &path[from..end];
        if dir.len() > 0 && dir.len() <= DIR_MAX && command.len() <= NAME_MAX {
            let mut place: Vec<u8> = crate::bytes::copy_of(dir);
            if dir[dir.len() - 1] != '/' as u8 {
                place.push('/' as u8);
            }
            append(&mut place, command);
            assert(place@ =~= within(dir@, command@));
            r.push(place);
            assert(startup::strings(r@) =~= before.push(within(dir@, command@)));
            assert(before + (seq![within(dir@, command@)] + rest) =~= startup::strings(r@) + rest);
        }
        assert(all == startup::strings(r@) + rest);
        if end == total {
            ended = true;
        } else {
            from = end + 1;
        }
    }
    assert(startup::strings(r@) + Seq::<Seq<u8>>::empty() =~= startup::strings(r@));
    r
}

/// The status of a command from those of its places: the first that is not
/// that no such program is there.
pub open spec fn outcome(answers: Seq<i64>) -> i64
    decreases answers.len(),
{
    if answers.len() == 0 {
        MINUS_ENOENT
    } else if answers[0] != MINUS_ENOENT {
        answers[0]
    } else {
        outcome(answers.skip(1))
    }
}

/// The places of a command, tried one after the other.
pub struct Search {
    places: Vec<Vec<u8>>,
    tried: usize,
    status: i64,
}

impl Search {
    /// Where the command is looked for.
    pub closed spec fn spec_places(&self) -> Seq<Seq<u8>> {
        startup::strings(self.places@)
    }

    /// How many places were tried.
    pub closed spec fn spec_tried(&self) -> int {
        self.tried as int
    }

    /// The last answer.
    pub closed spec fn spec_status(&self) -> i64 {
        self.status
    }

    /// Not more were tried than there are.
    pub open spec fn wf(&self) -> bool {
        0 <= self.spec_tried() <= self.spec_places().len()
    }

    /// Whether the search is over: something was found, or no place is left.
    pub open spec fn over(&self) -> bool {
        self.spec_status() != MINUS_ENOENT || self.spec_tried() == self.spec_places().len()
    }

    /// A search that has not begun.
    pub fn new(command: &[u8], path: Option<&[u8]>) -> (r: Self)
        ensures
            r.wf(),
            r.spec_places() == places(
                command@,
                match path {
                    None => None,
                    Some(path) => Some(path@),
                },
            ),
            r.spec_tried() == 0,
            r.spec_status() == MINUS_ENOENT,
    {
        Search { places: spawn_via_path(command, path), tried: 0, status: MINUS_ENOENT }
    }

    /// The place to try next.
    pub fn next(&self) -> (r: Option<&[u8]>)
        requires
            self.wf(),
        ensures
            r is None <==> self.over(),
            r matches Some(place) ==> place@ == self.spec_places()[self.spec_tried()],
    {
        if self.status != MINUS_ENOENT || self.tried == self.places.len() {
            return None;
        }
        Some(self.places[self.tried].as_slice())
    }

    /// Takes the answer of the place that was tried.
    pub fn answer(&mut self, status: i64)
        requires
            old(self).wf(),
            !old(self).over(),
        ensures
            final(self).wf(),
            final(self).spec_places() == old(self).spec_places(),
            final(self).spec_tried() == old(self).spec_tried() + 1,
            final(self).spec_status() == status,
    {
        let total: usize = self.places.len();
        assert(self.tried < total);
        self.tried = self.tried + 1;
        self.status = status;
    }

    /// The status of the command.
    pub fn status(&self) -> (r: i64)
        ensures
            r == self.spec_status(),
    {
        self.status
    }
}

/// A search that was given the answers of its places one after the other, until
/// it was over, has the status of the command.
pub proof fn search_takes_the_first_found(search: Search, answers: Seq<i64>)
    requires
        search.over(),
        search.spec_tried() == answers.len(),
        search.spec_status() == (if answers.len() == 0 {
            MINUS_ENOENT
        } else {
            answers.last()
        }),
        forall|i: int| 0 <= i < answers.len() - 1 ==> answers[i] == MINUS_ENOENT,
    ensures
        search.spec_status() == outcome(answers),
        search.spec_status() == MINUS_ENOENT ==> search.spec_tried()
            == search.spec_places().len(),
{
    lemma_outcome(answers);
}

proof fn lemma_outcome(answers: Seq<i64>)
    requires
        forall|i: int| 0 <= i < answers.len() - 1 ==> answers[i] == MINUS_ENOENT,
    ensures
        outcome(answers) == (if answers.len() == 0 {
            MINUS_ENOENT
        } else {
            answers.last()
        }),
    decreases answers.len(),
{
    if answers.len() > 1 {
        assert(answers[0] == MINUS_ENOENT);
        let rest = answers.skip(1);
        assert forall|i: int| 0 <= i < rest.len() - 1 implies rest[i] == MINUS_ENOENT by {
            assert(rest[i] == answers[i + 1]);
        }
        lemma_outcome(rest);
    } else if answers.len() == 1 {
        assert(outcome(answers.skip(1)) == MINUS_ENOENT);
    }
}

/// The last three digits of a number.
pub open spec fn short_number(value: nat) -> Seq<u8> {
    let all = decimal::digits(value);
    if all.len() <= 3 {
        all
    } else {
        all.skip(all.len() - 3)
    }
}

/// Writes the last three digits of a number.
pub fn write_decimal(value: u64, out: &mut Vec<u8>)
    ensures
        final(out)@ == old(out)@ + short_number(value as nat),
{
    let mut all: Vec<u8> = Vec::new();
    crate::decimal::push_number(&mut all, value);
    assert(all@ =~= decimal::digits(value as nat));
    let total: usize = all.len();
    let from: usize = if total <= 3 {
        0
    } else {
        total - 3
    };
    append(out, &all[from..total]);
    assert(all@.subrange(from as int, total as int) =~= short_number(value as nat));
}

/// What is said of a program that has ended, or that could not be started: on
/// the standard output and on the error output.
pub struct Report {
    pub out: Vec<u8>,
    pub err: Vec<u8>,
}

/// What goes to the standard output when a program ends.
pub open spec fn reported_out(status: i64) -> Seq<u8> {
    if status <= 0 {
        Seq::empty()
    } else if status == SPAWN_INTERRUPTED {
        bytes::ascii("interrupted\n"@)
    } else {
        bytes::ascii("zash: exit status "@) + short_number(status as nat) + bytes::ascii("\n"@)
    }
}

/// What goes to the error output when a program cannot be started.
pub open spec fn reported_err(command: Seq<u8>, status: i64) -> Seq<u8> {
    if status < 0 {
        bytes::ascii("zash: "@) + command + bytes::ascii(": cannot run\n"@)
    } else {
        Seq::empty()
    }
}

/// What is said of a status. Of an end without fault nothing is said.
pub fn report(command: &[u8], status: i64) -> (r: Report)
    ensures
        r.out@ == reported_out(status),
        r.err@ == reported_err(command@, status),
{
    proof {
        reveal_strlit("zash: ");
        reveal_strlit(": cannot run\n");
        reveal_strlit("interrupted\n");
        reveal_strlit("zash: exit status ");
        reveal_strlit("\n");
    }
    let mut out: Vec<u8> = Vec::new();
    let mut err: Vec<u8> = Vec::new();
    if status < 0 {
        push_str(&mut err, "zash: ");
        append(&mut err, command);
        push_str(&mut err, ": cannot run\n");
    } else if status == SPAWN_INTERRUPTED {
        push_str(&mut out, "interrupted\n");
    } else if status != 0 {
        push_str(&mut out, "zash: exit status ");
        write_decimal(status as u64, &mut out);
        push_str(&mut out, "\n");
    }
    assert(out@ =~= reported_out(status));
    assert(err@ =~= reported_err(command@, status));
    Report { out, err }
}

/// A string reaches the kernel up to its first zero: a word without one whole.
pub proof fn words_end_at_a_zero(word: Seq<u8>, rest: Seq<u8>)
    requires
        !word.contains(0),
    ensures
        until_zero(word) == word,
        until_zero(word + seq![0u8] + rest) == word,
{
    assert forall|i: int| 0 <= i < word.len() implies word[i] != 0 by {
        assert(word.contains(word[i]));
    }
    bytes::lemma_first_at_is(word, 0, 0, word.len() as int);
    assert(word.take(word.len() as int) =~= word);
    let whole = word + seq![0u8] + rest;
    assert(whole[word.len() as int] == 0);
    bytes::lemma_first_at_is(whole, 0, 0, word.len() as int);
    assert(whole.take(word.len() as int) =~= word);
}

/// A program is given the words of its line as they are, in order, and at most
/// eight of them: the first ones.
pub proof fn arguments_are_the_words(words: Seq<Seq<u8>>)
    requires
        forall|i: int| 0 <= i < words.len() ==> !(#[trigger] words[i]).contains(0),
    ensures
        words.len() <= 8 ==> arguments_of(words) == words,
        words.len() > 8 ==> arguments_of(words) == words.take(8),
{
    assert forall|i: int| 0 <= i < arguments_of(words).len() implies #[trigger] arguments_of(
        words,
    )[i] == words[i] by {
        words_end_at_a_zero(words[i], Seq::empty());
    }
    if words.len() <= 8 {
        assert(arguments_of(words) =~= words);
    } else {
        assert(arguments_of(words) =~= words.take(8));
    }
}

/// A name in a directory stands behind it and one slash.
pub proof fn one_slash_stands_between(dir: Seq<u8>, name: Seq<u8>)
    requires
        dir.len() > 0,
    ensures
        dir.last() != '/' as u8 ==> within(dir, name) == dir + seq!['/' as u8] + name,
        dir.last() == '/' as u8 ==> within(dir, name) == dir + name,
{
    assert(dir.push('/' as u8) =~= dir + seq!['/' as u8]);
}

/// A command with a slash in it is looked for there only.
pub proof fn a_slash_names_the_place(command: Seq<u8>, path: Option<Seq<u8>>)
    ensures
        command.contains('/' as u8) ==> places(command, path) == seq![command],
        !command.contains('/' as u8) && path is None ==> places(command, path).len() == 0,
{
}

/// Any other command is looked for in the directories of the path, in their
/// order: in the first one, and then in those behind the colon. An empty directory
/// and one that is too long are passed over, and a name that is too long is not
/// looked for.
pub proof fn directories_are_searched_in_order(command: Seq<u8>, dir: Seq<u8>, rest: Seq<u8>)
    requires
        !command.contains('/' as u8),
        !dir.contains(':' as u8),
    ensures
        ({
            let here = if 0 < dir.len() <= 32 && command.len() <= 32 {
                seq![within(dir, command)]
            } else {
                Seq::empty()
            };
            &&& places(command, Some(dir + seq![':' as u8] + rest)) == here + places(
                command,
                Some(rest),
            )
            &&& places(command, Some(dir)) == here
        }),
{
    assert forall|i: int| 0 <= i < dir.len() implies dir[i] != ':' as u8 by {
        assert(dir.contains(dir[i]));
    }
    let front = dir + seq![':' as u8];
    let whole = dir + seq![':' as u8] + rest;
    let at = dir.len() as int;
    assert(whole[at] == ':' as u8);
    bytes::lemma_first_at_is(whole, ':' as u8, 0, at);
    assert(whole.subrange(0, at) =~= dir);
    assert(whole =~= front + rest);
    lemma_places_moved(front, rest, command, 0);
    bytes::lemma_first_at_is(dir, ':' as u8, 0, at);
    assert(dir.subrange(0, at) =~= dir);
    let here = if 0 < dir.len() <= 32 && command.len() <= 32 {
        seq![within(dir, command)]
    } else {
        Seq::empty()
    };
    assert(here + Seq::<Seq<u8>>::empty() =~= here);
    assert(Seq::<Seq<u8>>::empty() + places_from(rest, command, 0) =~= places_from(
        rest,
        command,
        0,
    ));
}

proof fn lemma_places_moved(a: Seq<u8>, b: Seq<u8>, name: Seq<u8>, at: int)
    requires
        0 <= at <= b.len(),
    ensures
        places_from(a + b, name, a.len() + at) == places_from(b, name, at),
    decreases b.len() - at,
{
    let whole = a + b;
    bytes::lemma_first_at(b, ':' as u8, at);
    let end = bytes::first_at(b, ':' as u8, at);
    assert forall|i: int| a.len() + at <= i < a.len() + end implies whole[i] != ':' as u8 by {
        assert(whole[i] == b[i - a.len()]);
    }
    bytes::lemma_first_at_is(whole, ':' as u8, a.len() + at, a.len() + end);
    assert(whole.subrange(a.len() + at, a.len() + end) =~= b.subrange(at, end));
    if end < b.len() {
        lemma_places_moved(a, b, name, end + 1);
    }
}

/// The status of a command is the first answer that is not that no such program is
/// there.
pub proof fn the_first_program_found_answers(missing: Seq<i64>, status: i64, rest: Seq<i64>)
    requires
        forall|i: int| 0 <= i < missing.len() ==> #[trigger] missing[i] == -2,
        status != -2,
    ensures
        outcome(missing + seq![status] + rest) == status,
        outcome(missing) == -2,
    decreases missing.len(),
{
    let all = missing + seq![status] + rest;
    if missing.len() > 0 {
        let fewer = missing.skip(1);
        assert forall|i: int| 0 <= i < fewer.len() implies #[trigger] fewer[i] == -2 by {
            assert(fewer[i] == missing[i + 1]);
        }
        the_first_program_found_answers(fewer, status, rest);
        assert(missing[0] == -2);
        assert(all.skip(1) =~= fewer + seq![status] + rest);
    } else {
        assert(all[0] == status);
    }
}

/// What is said of a program that has ended: nothing where it ended well, that it
/// was interrupted, or its status; and of one that could not be started, that.
pub proof fn a_status_is_told(command: Seq<u8>, status: i64)
    ensures
        status == 0 ==> reported_out(status).len() == 0 && reported_err(command, status).len()
            == 0,
        status == 0x200 ==> reported_out(status) == bytes::ascii("interrupted\n"@),
        0 < status < 1000 && status != 0x200 ==> reported_out(status) == bytes::ascii(
            "zash: exit status "@,
        ) + decimal::digits(status as nat) + bytes::ascii("\n"@),
        status > 0 ==> reported_err(command, status).len() == 0,
        status < 0 ==> reported_err(command, status) == bytes::ascii("zash: "@) + command
            + bytes::ascii(": cannot run\n"@),
        status < 0 ==> reported_out(status).len() == 0,
{
    if 0 < status < 1000 {
        lemma_three_digits(status as nat);
    }
}

proof fn lemma_three_digits(value: nat)
    requires
        value < 1000,
    ensures
        decimal::digits(value).len() <= 3,
{
    reveal_with_fuel(decimal::digits, 4);
}

} // verus!
