//! The environment that every program starts with: where its lines come from
//! and which of them are taken.
use crate::bytes::{self, bytes_of, copy_of, find, NEWLINE, RETURN, SPACE, TAB};
use crate::startup::{self, MAX_ENVP};
use vstd::prelude::*;

verus! {

/// The most bytes of an environment line.
pub const ENV_LINE_MAX: usize = 128;

/// What becomes of a line of the file.
#[derive(Clone, Copy, PartialEq, Eq, Structural, Debug)]
pub enum EnvLine {
    /// Nothing: it is empty or a comment.
    Ignore,
    /// It is taken.
    Take,
    /// It is left out.
    Reject(EnvReject),
}

/// Why a line is left out.
#[derive(Clone, Copy, PartialEq, Eq, Structural, Debug)]
pub enum EnvReject {
    NoEquals,
    EmptyName,
    BadName,
    TooLong,
}

/// Whether a byte is an ASCII letter.
pub open spec fn is_letter(byte: u8) -> bool {
    0x41 <= byte <= 0x5a || 0x61 <= byte <= 0x7a
}

/// Whether a byte can begin a name.
pub open spec fn begins_name(byte: u8) -> bool {
    is_letter(byte) || byte == '_' as u8
}

/// Whether a byte can stand in a name.
pub open spec fn in_name(byte: u8) -> bool {
    is_letter(byte) || 0x30 <= byte <= 0x39 || byte == '_' as u8
}

/// Whether `name` is the name of a variable.
pub open spec fn is_name(name: Seq<u8>) -> bool {
    &&& name.len() > 0
    &&& begins_name(name[0])
    &&& forall|i: int| 0 <= i < name.len() ==> in_name(#[trigger] name[i])
}

/// What becomes of a line.
pub open spec fn classified(line: Seq<u8>) -> EnvLine {
    let equals = bytes::first_at(line, '=' as u8, 0);
    if line.len() == 0 || line[0] == '#' as u8 {
        EnvLine::Ignore
    } else if line.len() > ENV_LINE_MAX {
        EnvLine::Reject(EnvReject::TooLong)
    } else if equals == line.len() {
        EnvLine::Reject(EnvReject::NoEquals)
    } else if equals == 0 {
        EnvLine::Reject(EnvReject::EmptyName)
    } else if !is_name(line.take(equals)) {
        EnvLine::Reject(EnvReject::BadName)
    } else {
        EnvLine::Take
    }
}

/// Whether a byte can begin a name.
pub fn is_name_start(byte: u8) -> (r: bool)
    ensures
        r == begins_name(byte),
{
    (0x41 <= byte && byte <= 0x5a) || (0x61 <= byte && byte <= 0x7a) || byte == '_' as u8
}

/// Whether a byte can stand in a name.
pub fn is_name_byte(byte: u8) -> (r: bool)
    ensures
        r == in_name(byte),
{
    is_name_start(byte) || (0x30 <= byte && byte <= 0x39)
}

/// What becomes of a line.
pub fn classify_env_line(line: &[u8]) -> (r: EnvLine)
    ensures
        r == classified(line@),
{
    if line.len() == 0 || line[0] == '#' as u8 {
        return EnvLine::Ignore;
    }
    if line.len() > ENV_LINE_MAX {
        return EnvLine::Reject(EnvReject::TooLong);
    }
    let equals: usize = find(line, '=' as u8, 0);
    if equals == line.len() {
        return EnvLine::Reject(EnvReject::NoEquals);
    }
    if equals == 0 {
        return EnvLine::Reject(EnvReject::EmptyName);
    }
    let ghost name = line@.take(equals as int);
    if !is_name_start(line[0]) {
        assert(!begins_name(name[0]));
        return EnvLine::Reject(EnvReject::BadName);
    }
    let mut at: usize = 0;
    while at < equals
        invariant
            at <= equals,
            0 < equals < line@.len() <= ENV_LINE_MAX,
            line@[0] != '#' as u8,
            equals == bytes::first_at(line@, '=' as u8, 0),
            name == line@.take(equals as int),
            forall|i: int| 0 <= i < at ==> in_name(#[trigger] name[i]),
        decreases equals - at,
    {
        if !is_name_byte(line[at]) {
            assert(!in_name(name[at as int]));
            return EnvLine::Reject(EnvReject::BadName);
        }
        at += 1;
    }
    EnvLine::Take
}

/// Whether a byte is left off at the front of a line.
pub open spec fn is_blank(byte: u8) -> bool {
    byte == SPACE || byte == TAB
}

/// Where the line begins behind the blanks at its front.
pub open spec fn front(line: Seq<u8>, from: int) -> int
    decreases line.len() - from,
{
    if from < line.len() && is_blank(line[from]) {
        front(line, from + 1)
    } else {
        from
    }
}

/// Where the line ends before the blanks and carriage returns at its end.
pub open spec fn back(line: Seq<u8>, start: int, end: int) -> int
    decreases end - start,
{
    if end > start && (is_blank(line[end - 1]) || line[end - 1] == RETURN) {
        back(line, start, end - 1)
    } else {
        end
    }
}

/// The line without the blanks around it.
pub open spec fn trimmed(line: Seq<u8>) -> Seq<u8> {
    let start = front(line, 0);
    line.subrange(start, back(line, start, line.len() as int))
}

/// The line without the blanks around it.
pub fn trim_env_line(line: &[u8]) -> (r: &[u8])
    ensures
        r@ == trimmed(line@),
{
    let mut start: usize = 0;
    while start < line.len() && (line[start] == SPACE || line[start] == TAB)
        invariant
            start <= line@.len(),
            front(line@, 0) == front(line@, start as int),
        decreases line@.len() - start,
    {
        start += 1;
    }
    let mut end: usize = line.len();
    while end > start && (line[end - 1] == SPACE || line[end - 1] == TAB || line[end - 1]
        == RETURN)
        invariant
            start <= end <= line@.len(),
            back(line@, start as int, line@.len() as int) == back(
                line@,
                start as int,
                end as int,
            ),
        decreases end - start,
    {
        end -= 1;
    }
    &line[start..end]
}

/// The pieces of a file between its line feeds, from `from` on.
pub open spec fn pieces(file: Seq<u8>, from: int) -> Seq<Seq<u8>>
    decreases file.len() - from,
{
    let end = bytes::first_at(file, NEWLINE, from);
    if from < 0 || end < from || end >= file.len() {
        seq![file.skip(from)]
    } else {
        seq![file.subrange(from, end)] + pieces(file, end + 1)
    }
}

/// The lines that are taken out of some pieces.
pub open spec fn accepted(pieces: Seq<Seq<u8>>) -> Seq<Seq<u8>>
    decreases pieces.len(),
{
    if pieces.len() == 0 {
        Seq::empty()
    } else if classified(trimmed(pieces.last())) == EnvLine::Take {
        accepted(pieces.drop_last()).push(trimmed(pieces.last()))
    } else {
        accepted(pieces.drop_last())
    }
}

/// How many of some pieces are left out for what they are.
pub open spec fn rejected(pieces: Seq<Seq<u8>>) -> int
    decreases pieces.len(),
{
    if pieces.len() == 0 {
        0
    } else {
        rejected(pieces.drop_last()) + (if classified(trimmed(pieces.last())) is Reject {
            1int
        } else {
            0
        })
    }
}

/// The lines that programs get where the file gives none.
pub open spec fn defaults() -> Seq<Seq<u8>> {
    seq![
        bytes::ascii("TERM=zaytos"@),
        bytes::ascii("PATH=/bin"@),
        bytes::ascii("HOME=/root"@),
    ]
}

/// The lines that programs get where the file gives none.
pub fn default_environment() -> (r: Vec<Vec<u8>>)
    ensures
        startup::strings(r@) == defaults(),
        r@.len() == 3,
{
    proof {
        reveal_strlit("TERM=zaytos");
        reveal_strlit("PATH=/bin");
        reveal_strlit("HOME=/root");
    }
    let mut r: Vec<Vec<u8>> = Vec::new();
    r.push(bytes_of("TERM=zaytos"));
    r.push(bytes_of("PATH=/bin"));
    r.push(bytes_of("HOME=/root"));
    assert(startup::strings(r@) =~= defaults());
    r
}

/// The environment of every program.
pub struct Environment {
    lines: Vec<Vec<u8>>,
    from_file: bool,
}

/// How many lines of the file were taken and how many were left out.
#[derive(Clone, Copy, PartialEq, Eq, Structural, Debug)]
pub struct Loaded {
    pub taken: usize,
    pub dropped: usize,
}

impl Environment {
    /// The lines.
    pub closed spec fn view(&self) -> Seq<Seq<u8>> {
        startup::strings(self.lines@)
    }

    /// Whether they come from the file.
    pub closed spec fn is_from_file(&self) -> bool {
        self.from_file
    }

    /// The lines and their lengths are bounded.
    pub open spec fn wf(&self) -> bool {
        &&& self@.len() <= MAX_ENVP
        &&& forall|i: int| 0 <= i < self@.len() ==> (#[trigger] self@[i]).len() <= ENV_LINE_MAX
    }

    /// No lines.
    pub fn new() -> (r: Self)
        ensures
            r.wf(),
            r@ == Seq::<Seq<u8>>::empty(),
            !r.is_from_file(),
    {
        let r = Environment { lines: Vec::new(), from_file: false };
        assert(r@ =~= Seq::<Seq<u8>>::empty());
        r
    }

    /// Adds a line; false where the table is full or the line too long.
    pub fn push(&mut self, line: &[u8]) -> (ok: bool)
        requires
            old(self).wf(),
        ensures
            final(self).wf(),
            final(self).is_from_file() == old(self).is_from_file(),
            ok == (old(self)@.len() < MAX_ENVP && line@.len() <= ENV_LINE_MAX),
            final(self)@ == (if ok {
                old(self)@.push(line@)
            } else {
                old(self)@
            }),
    {
        if self.lines.len() >= MAX_ENVP || line.len() > ENV_LINE_MAX {
            return false;
        }
        self.lines.push(copy_of(line));
        assert(self@ =~= old(self)@.push(line@));
        true
    }

    /// The lines.
    pub fn lines(&self) -> (r: &[Vec<u8>])
        ensures
            startup::strings(r@) == self@,
    {
        self.lines.as_slice()
    }

    /// Whether they come from the file.
    pub fn from_file(&self) -> (r: bool)
        ensures
            r == self.is_from_file(),
    {
        self.from_file
    }

    /// Loads the environment from the contents of the file, where there is one:
    /// takes the lines that can be taken, as far as there is room. Where none is
    /// taken, the defaults stand in.
    pub fn load_environment(&mut self, source: Option<&[u8]>) -> (r: Loaded)
        requires
            old(self).wf(),
        ensures
            final(self).wf(),
            ({
                let all = match source {
                    Some(file) => pieces(file@, 0),
                    None => Seq::empty(),
                };
                let lines = accepted(all);
                let room = MAX_ENVP - old(self)@.len();
                let taken = if lines.len() <= room {
                    lines.len() as int
                } else {
                    room
                };
                &&& r.taken == taken
                &&& r.dropped == rejected(all) + lines.len() - taken
                &&& final(self)@ == (if taken == 0 {
                    defaults()
                } else {
                    old(self)@ + lines.take(taken)
                })
                &&& final(self).is_from_file() == (taken > 0)
            }),
            final(self)@.len() > 0,
    {
        let mut taken: usize = 0;
        let mut dropped: usize = 0;
        let ghost start = self@;
        let ghost all = match source {
            Some(file) => pieces(file@, 0),
            None => Seq::empty(),
        };
        let ghost mut seen: Seq<Seq<u8>> = Seq::empty();
        assert(accepted(seen) =~= Seq::<Seq<u8>>::empty());
        assert(start + accepted(seen).take(0) =~= start);
        match source {
            Some(file) => {
                let mut from: usize = 0;
                let mut more: bool = true;
                assert(seen + pieces(file@, 0) =~= all);
                while more
                    invariant
                        self.wf(),
                        start.len() <= MAX_ENVP,
                        all == pieces(file@, 0),
                        more ==> from <= file@.len() && all == seen + pieces(
                            file@,
                            from as int,
                        ),
                        !more ==> all == seen,
                        seen.len() <= from + (if more {
                            0int
                        } else {
                            1
                        }),
                        from <= file@.len(),
                        taken == (if accepted(seen).len() <= MAX_ENVP - start.len() {
                            accepted(seen).len() as int
                        } else {
                            MAX_ENVP - start.len()
                        }),
                        dropped == rejected(seen) + accepted(seen).len() - taken,
                        self@ == start + accepted(seen).take(taken as int),
                        accepted(seen).len() + rejected(seen) <= seen.len(),
                    decreases
                        file@.len() - from + (if more {
                            1int
                        } else {
                            0
                        }),
                {
                    let end: usize = find(file, NEWLINE, from);
                    proof {
                        bytes::lemma_first_at(file@, NEWLINE, from as int);
                    }
                    let piece: &[u8] = &file[from..end];
                    let ghost before = seen;
                    proof {
                        if end < file@.len() {
                            assert(all =~= seen.push(piece@) + pieces(file@, end + 1));
                        } else {
                            assert(file@.skip(from as int) =~= piece@);
                            assert(all =~= seen.push(piece@));
                        }
                        seen = seen.push(piece@);
                        assert(seen.drop_last() =~= before);
                    }
                    let line: &[u8] = trim_env_line(piece);
                    match classify_env_line(line) {
                        EnvLine::Ignore => {},
                        EnvLine::Take => {
                            if self.push(line) {
                                taken += 1;
                            } else {
                                dropped += 1;
                            }
                            assert(self@ =~= start + accepted(seen).take(taken as int));
                        },
                        EnvLine::Reject(_) => {
                            dropped += 1;
                        },
                    }
                    if end < file.len() {
                        from = end + 1;
                    } else {
                        more = false;
                    }
                }
            },
            None => {
                assert(all =~= seen);
            },
        }
        if taken == 0 {
            self.lines = default_environment();
            self.from_file = false;
            proof {
                reveal_strlit("TERM=zaytos");
                reveal_strlit("PATH=/bin");
                reveal_strlit("HOME=/root");
            }
        } else {
            self.from_file = true;
        }
        Loaded { taken, dropped }
    }
}

/// The part of the file's first block that is the file.
pub fn env_source<'a>(size: u64, block: &'a [u8]) -> (r: &'a [u8])
    ensures
        r@ == (if size < block@.len() {
            block@.take(size as int)
        } else {
            block@
        }),
{
    let take: usize = if size < block.len() as u64 {
        size as usize
    } else {
        block.len()
    };
    assert(block@.subrange(0, take as int) =~= (if size < block@.len() {
        block@.take(size as int)
    } else {
        block@
    }));
    &block[0..take]
}

/// The lines taken out of a file are all lines that can be taken.
pub proof fn only_proper_lines_are_taken(all: Seq<Seq<u8>>)
    ensures
        forall|i: int|
            0 <= i < accepted(all).len() ==> classified(#[trigger] accepted(all)[i])
                == EnvLine::Take,
    decreases all.len(),
{
    if all.len() > 0 {
        only_proper_lines_are_taken(all.drop_last());
    }
}

/// A line that is taken has a name before its first equals sign, and is found
/// under exactly that name.
pub proof fn taken_line_sets_its_name(line: Seq<u8>)
    requires
        classified(line) == EnvLine::Take,
    ensures
        ({
            let name = line.take(bytes::first_at(line, '=' as u8, 0));
            is_name(name) && startup::sets(line, name) && line.len() <= ENV_LINE_MAX
        }),
{
    bytes::lemma_first_at(line, '=' as u8, 0);
}

/// Every default line is one that could be taken from a file.
pub proof fn defaults_are_proper_lines(index: int)
    requires
        0 <= index < defaults().len(),
    ensures
        classified(defaults()[index]) == EnvLine::Take,
        defaults().len() == 3,
{
    reveal_strlit("TERM=zaytos");
    reveal_strlit("PATH=/bin");
    reveal_strlit("HOME=/root");
    let line = defaults()[index];
    bytes::lemma_first_at_is(line, '=' as u8, 0, 4);
    let name = line.take(4);
    assert forall|i: int| 0 <= i < name.len() implies in_name(#[trigger] name[i]) by {}
}

/// Trimming a trimmed line changes nothing.
pub proof fn trimming_twice_changes_nothing(line: Seq<u8>)
    ensures
        trimmed(trimmed(line)) == trimmed(line),
{
    lemma_front(line, 0);
    let start = front(line, 0);
    lemma_back(line, start, line.len() as int);
    let end = back(line, start, line.len() as int);
    let inner = trimmed(line);
    if inner.len() > 0 {
        assert(inner[0] == line[start]);
        assert(inner.last() == line[end - 1]);
    }
    assert(front(inner, 0) == 0);
    assert(back(inner, 0, inner.len() as int) == inner.len());
    assert(inner.subrange(0, inner.len() as int) =~= inner);
}

proof fn lemma_front(line: Seq<u8>, from: int)
    requires
        0 <= from <= line.len(),
    ensures
        from <= front(line, from) <= line.len(),
        front(line, from) < line.len() ==> !is_blank(line[front(line, from)]),
    decreases line.len() - from,
{
    if from < line.len() && is_blank(line[from]) {
        lemma_front(line, from + 1);
    }
}

proof fn lemma_back(line: Seq<u8>, start: int, end: int)
    requires
        0 <= start <= end <= line.len(),
    ensures
        start <= back(line, start, end) <= end,
        back(line, start, end) > start ==> !is_blank(line[back(line, start, end) - 1]) && line[back(
            line,
            start,
            end,
        ) - 1] != RETURN,
    decreases end - start,
{
    if end > start && (is_blank(line[end - 1]) || line[end - 1] == RETURN) {
        lemma_back(line, start, end - 1);
    }
}

/// A name is made of letters, digits and underscores, and does not begin with a
/// digit.
pub proof fn names_are_letters_digits_and_underscores(byte: u8)
    ensures
        in_name(byte) <==> ('a' as u8 <= byte <= 'z' as u8 || 'A' as u8 <= byte <= 'Z' as u8
            || '0' as u8 <= byte <= '9' as u8 || byte == '_' as u8),
        begins_name(byte) <==> in_name(byte) && !('0' as u8 <= byte <= '9' as u8),
{
}

/// A line that is taken is a name, an equals sign and any value, together not too
/// long; and every such line is taken.
pub proof fn lines_with_a_name_and_a_value_are_taken(name: Seq<u8>, value: Seq<u8>)
    requires
        is_name(name),
    ensures
        name.len() + 1 + value.len() <= 128 ==> classified(name + seq!['=' as u8] + value)
            == EnvLine::Take,
        name.len() + 1 + value.len() > 128 ==> classified(name + seq!['=' as u8] + value)
            == EnvLine::Reject(EnvReject::TooLong),
{
    let line = name + seq!['=' as u8] + value;
    assert forall|i: int| 0 <= i < name.len() implies line[i] != '=' as u8 by {
        assert(in_name(name[i]));
        assert(line[i] == name[i]);
    }
    assert(line[name.len() as int] == '=' as u8);
    bytes::lemma_first_at_is(line, '=' as u8, 0, name.len() as int);
    assert(line.take(name.len() as int) =~= name);
    assert(line[0] == name[0]);
    assert(begins_name(name[0]));
}

/// What becomes of the other lines: an empty one and a comment are passed over,
/// and a line that has no equals sign, no name before it or no proper name before
/// it is left out for that.
pub proof fn other_lines_are_not_taken(line: Seq<u8>)
    ensures
        classified(line) is Ignore <==> line.len() == 0 || line[0] == '#' as u8,
        0 < line.len() <= 128 && line[0] != '#' as u8 && !line.contains('=' as u8) ==> classified(
            line,
        ) == EnvLine::Reject(EnvReject::NoEquals),
        0 < line.len() <= 128 && line[0] == '=' as u8 ==> classified(line) == EnvLine::Reject(
            EnvReject::EmptyName,
        ),
        classified(line) is Take ==> exists|at: int|
            0 < at < line.len() && #[trigger] line[at] == '=' as u8 && is_name(line.take(at)),
{
    bytes::lemma_first_at(line, '=' as u8, 0);
    let at = bytes::first_at(line, '=' as u8, 0);
    if !line.contains('=' as u8) && at < line.len() {
        assert(line.contains(line[at]));
    }
    if line.len() > 0 && line[0] == '=' as u8 {
        bytes::lemma_first_at_is(line, '=' as u8, 0, 0);
    }
}

/// A text before the first equals sign that is no name makes the line a bad one.
pub proof fn bad_names_are_left_out(name: Seq<u8>, value: Seq<u8>)
    requires
        name.len() > 0,
        name[0] != '#' as u8,
        !name.contains('=' as u8),
        !is_name(name),
        name.len() + 1 + value.len() <= 128,
    ensures
        classified(name + seq!['=' as u8] + value) == EnvLine::Reject(EnvReject::BadName),
{
    let line = name + seq!['=' as u8] + value;
    assert forall|i: int| 0 <= i < name.len() implies line[i] != '=' as u8 by {
        assert(name.contains(name[i]));
        assert(line[i] == name[i]);
    }
    assert(line[name.len() as int] == '=' as u8);
    bytes::lemma_first_at_is(line, '=' as u8, 0, name.len() as int);
    assert(line.take(name.len() as int) =~= name);
    assert(line[0] == name[0]);
}

/// Trimming takes the blanks around a line and nothing else: spaces and tabs at
/// its front, and these and carriage returns at its end.
pub proof fn trimming_takes_the_blanks_around(line: Seq<u8>, before: Seq<u8>, inner: Seq<u8>, behind: Seq<u8>)
    requires
        line == before + inner + behind,
        inner.len() > 0,
        forall|i: int|
            0 <= i < before.len() ==> #[trigger] before[i] == 0x20 || before[i] == 0x09,
        forall|i: int|
            0 <= i < behind.len() ==> #[trigger] behind[i] == 0x20 || behind[i] == 0x09
                || behind[i] == 0x0d,
        inner[0] != 0x20 && inner[0] != 0x09,
        inner.last() != 0x20 && inner.last() != 0x09 && inner.last() != 0x0d,
    ensures
        trimmed(line) == inner,
{
    let start = before.len() as int;
    let end = start + inner.len();
    assert forall|i: int| 0 <= i < start implies is_blank(#[trigger] line[i]) by {
        assert(line[i] == before[i]);
    }
    assert(line[start] == inner[0]);
    lemma_front_is(line, 0, start);
    assert forall|i: int| end <= i < line.len() implies is_blank(#[trigger] line[i]) || line[i]
        == RETURN by {
        assert(line[i] == behind[i - end]);
    }
    assert(line[end - 1] == inner.last());
    lemma_back_is(line, start, line.len() as int, end);
    assert(line.subrange(start, end) =~= inner);
}

proof fn lemma_front_is(line: Seq<u8>, from: int, at: int)
    requires
        0 <= from <= at < line.len(),
        forall|i: int| from <= i < at ==> is_blank(#[trigger] line[i]),
        !is_blank(line[at]),
    ensures
        front(line, from) == at,
    decreases at - from,
{
    if from < at {
        assert(is_blank(line[from]));
        lemma_front_is(line, from + 1, at);
    }
}

proof fn lemma_back_is(line: Seq<u8>, start: int, end: int, at: int)
    requires
        0 <= start < at <= end <= line.len(),
        forall|i: int| at <= i < end ==> is_blank(#[trigger] line[i]) || line[i] == RETURN,
        !is_blank(line[at - 1]),
        line[at - 1] != RETURN,
    ensures
        back(line, start, end) == at,
    decreases end - at,
{
    if at < end {
        assert(is_blank(line[end - 1]) || line[end - 1] == RETURN);
        lemma_back_is(line, start, end - 1, at);
    }
}

/// A file is divided at its line feeds, and only there.
pub proof fn files_are_divided_at_line_feeds(line: Seq<u8>, rest: Seq<u8>)
    requires
        !line.contains(NEWLINE),
    ensures
        pieces(line.push(NEWLINE) + rest, 0) == seq![line] + pieces(rest, 0),
        pieces(line, 0) == seq![line],
{
    assert forall|i: int| 0 <= i < line.len() implies line[i] != NEWLINE by {
        assert(line.contains(line[i]));
    }
    let whole = line.push(NEWLINE) + rest;
    bytes::lemma_first_at_is(whole, NEWLINE, 0, line.len() as int);
    assert(whole.subrange(0, line.len() as int) =~= line);
    lemma_pieces_moved(line.push(NEWLINE), rest, 0);
    bytes::lemma_first_at_is(line, NEWLINE, 0, line.len() as int);
    assert(line.skip(0) =~= line);
}

proof fn lemma_pieces_moved(a: Seq<u8>, b: Seq<u8>, at: int)
    requires
        0 <= at <= b.len(),
    ensures
        pieces(a + b, a.len() + at) == pieces(b, at),
    decreases b.len() - at,
{
    let whole = a + b;
    bytes::lemma_first_at(b, NEWLINE, at);
    let end = bytes::first_at(b, NEWLINE, at);
    assert forall|i: int| a.len() + at <= i < a.len() + end implies whole[i] != NEWLINE by {
        assert(whole[i] == b[i - a.len()]);
    }
    bytes::lemma_first_at_is(whole, NEWLINE, a.len() + at, a.len() + end);
    if end < b.len() {
        assert(whole.subrange(a.len() + at, a.len() + end) =~= b.subrange(at, end));
        lemma_pieces_moved(a, b, end + 1);
    } else {
        assert(whole.skip(a.len() + at) =~= b.skip(at));
    }
}

/// Every line of the file is looked at by itself, in order: it is taken without
/// the blanks around it, or left out and counted, or passed over.
pub proof fn lines_are_taken_one_by_one(before: Seq<Seq<u8>>, line: Seq<u8>)
    ensures
        accepted(Seq::empty()).len() == 0,
        rejected(Seq::empty()) == 0,
        classified(trimmed(line)) is Take ==> accepted(before.push(line)) == accepted(before).push(
            trimmed(line),
        ) && rejected(before.push(line)) == rejected(before),
        classified(trimmed(line)) is Reject ==> accepted(before.push(line)) == accepted(before)
            && rejected(before.push(line)) == rejected(before) + 1,
        classified(trimmed(line)) is Ignore ==> accepted(before.push(line)) == accepted(before)
            && rejected(before.push(line)) == rejected(before),
{
    assert(before.push(line).drop_last() =~= before);
}

/// Without a file, programs get a terminal, a path and a home directory.
pub proof fn defaults_are_the_three_lines()
    ensures
        defaults() == seq![
            bytes::ascii("TERM=zaytos"@),
            bytes::ascii("PATH=/bin"@),
            bytes::ascii("HOME=/root"@),
        ],
{
}

} // verus!
