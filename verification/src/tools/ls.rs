//! `ls`: the names in a directory, one on each line.
use crate::bytes::{self, append, NEWLINE};
use crate::line;
use crate::startup;
use crate::userlib::{self, for_each_dirent};
use vstd::prelude::*;

verus! {

/// The most bytes of the path, with the zero behind them.
pub const PATH_MAX: usize = 256;

/// Bytes of directory records that are read at a time.
pub const DIRENT_BUF: usize = 1024;

/// The most bytes of one write.
pub const OUT_BUF: usize = 512;

/// A name as it is listed: with a line feed behind it, and cut where it is
/// longer than a write.
pub open spec fn listed(name: Seq<u8>) -> Seq<u8> {
    line::clip(name, OUT_BUF - 1).push(NEWLINE)
}

/// Names as they are listed.
pub open spec fn listing(names: Seq<Seq<u8>>) -> Seq<u8>
    decreases names.len(),
{
    if names.len() == 0 {
        Seq::empty()
    } else {
        listing(names.drop_last()) + listed(names.last())
    }
}

/// What is written and what is held back after names were gathered: a name goes
/// to those that are held back, and only where it does not fit beside them, they
/// are written first, as one.
pub open spec fn gathered(writes: Seq<Seq<u8>>, held: Seq<u8>, names: Seq<Seq<u8>>) -> (
    Seq<Seq<u8>>,
    Seq<u8>,
)
    decreases names.len(),
{
    if names.len() == 0 {
        (writes, held)
    } else {
        let (sent, kept) = gathered(writes, held, names.drop_last());
        let name = names.last();
        if kept.len() + name.len() + 1 <= OUT_BUF {
            (sent, kept + listed(name))
        } else {
            (sent.push(kept), listed(name))
        }
    }
}

/// A list of names that is being written.
pub struct Listing {
    held: Vec<u8>,
    failed: u64,
}

impl Listing {
    /// What is gathered and not written.
    pub closed spec fn view(&self) -> Seq<u8> {
        self.held@
    }

    /// The status so far.
    pub closed spec fn spec_failed(&self) -> u64 {
        self.failed
    }

    /// What is gathered fits one write.
    pub open spec fn wf(&self) -> bool {
        self@.len() <= OUT_BUF
    }

    /// Nothing gathered, and nothing failed.
    pub fn new() -> (r: Self)
        ensures
            r.wf(),
            r@ == Seq::<u8>::empty(),
            r.spec_failed() == 0,
    {
        Listing { held: Vec::new(), failed: 0 }
    }

    /// Gathers one name; what there is no more room for goes to `writes`.
    pub fn push(&mut self, name: &[u8], writes: &mut Vec<Vec<u8>>)
        requires
            old(self).wf(),
        ensures
            final(self).wf(),
            final(self).spec_failed() == old(self).spec_failed(),
            old(self)@.len() + name@.len() + 1 <= OUT_BUF ==> final(self)@ == old(self)@ + listed(
                name@,
            ) && final(writes)@ == old(writes)@,
            old(self)@.len() + name@.len() + 1 > OUT_BUF ==> final(self)@ == listed(name@)
                && final(writes)@.len() == old(writes)@.len() + 1 && final(writes)@.drop_last()
                == old(writes)@ && final(writes)@.last()@ == old(self)@,
    {
        if name.len() > OUT_BUF - 1 || self.held.len() > OUT_BUF - 1 - name.len() {
            let mut full: Vec<u8> = Vec::new();
            std::mem::swap(&mut full, &mut self.held);
            writes.push(full);
            assert(writes@.drop_last() =~= old(writes)@);
        }
        let ghost before = self.held@;
        let take: usize = crate::bytes::least(name.len(), OUT_BUF - 1 - self.held.len());
        append(&mut self.held, &name[0..take]);
        self.held.push(NEWLINE);
        assert(name@.subrange(0, take as int) =~= line::clip(name@, OUT_BUF - 1));
        assert(self.held@ =~= before + listed(name@));
        assert(old(self)@.len() + name@.len() + 1 > OUT_BUF ==> self.held@ =~= listed(name@));
    }

    /// Gathers the names of a run of directory records.
    pub fn take(&mut self, entries: &[u8], writes: &mut Vec<Vec<u8>>)
        requires
            old(self).wf(),
        ensures
            final(self).wf(),
            final(self).spec_failed() == old(self).spec_failed(),
            (startup::strings(final(writes)@), final(self)@) == gathered(
                startup::strings(old(writes)@),
                old(self)@,
                userlib::names_from(entries@, 0),
            ),
            userlib::stream(final(writes)@) + final(self)@ == userlib::stream(old(writes)@) + old(
                self,
            )@ + listing(userlib::names_from(entries@, 0)),
            final(writes)@.len() >= old(writes)@.len(),
            final(writes)@.take(old(writes)@.len() as int) == old(writes)@,
            forall|i: int|
                old(writes)@.len() <= i < final(writes)@.len() ==> (
                #[trigger] final(writes)@[i])@.len() <= OUT_BUF,
    {
        let names = for_each_dirent(entries);
        let ghost all = userlib::names_from(entries@, 0);
        let mut at: usize = 0;
        let total: usize = names.len();
        proof {
            assert(all.take(0) =~= Seq::<Seq<u8>>::empty());
            assert(writes@.take(old(writes)@.len() as int) =~= old(writes)@);
            assert(userlib::stream(writes@) + self@ =~= userlib::stream(old(writes)@) + old(self)@
                + listing(all.take(0)));
        }
        while at < total
            invariant
                total == names@.len(),
                at <= total,
                startup::strings(names@) == all,
                self.wf(),
                self.spec_failed() == old(self).spec_failed(),
                (startup::strings(writes@), self@) == gathered(
                    startup::strings(old(writes)@),
                    old(self)@,
                    all.take(at as int),
                ),
                userlib::stream(writes@) + self@ == userlib::stream(old(writes)@) + old(self)@
                    + listing(all.take(at as int)),
                writes@.len() >= old(writes)@.len(),
                writes@.take(old(writes)@.len() as int) == old(writes)@,
                forall|i: int|
                    old(writes)@.len() <= i < writes@.len() ==> (#[trigger] writes@[i])@.len()
                        <= OUT_BUF,
            decreases total - at,
        {
            let ghost sent = writes@;
            let ghost held = self@;
            self.push(names[at].as_slice(), writes);
            proof {
                let name = names@[at as int]@;
                assert(startup::strings(names@)[at as int] == name);
                assert(all.take(at + 1).drop_last() =~= all.take(at as int));
                assert(all.take(at + 1).last() == name);
                if held.len() + name.len() + 1 > OUT_BUF {
                    assert(startup::strings(writes@) =~= startup::strings(sent).push(held)) by {
                        assert forall|i: int| 0 <= i < sent.len() implies writes@[i] == sent[i] by {
                            assert(writes@.drop_last()[i] == writes@[i]);
                        }
                    }
                    assert(userlib::stream(writes@) == userlib::stream(sent) + held);
                    assert forall|i: int| old(writes)@.len() <= i < writes@.len() implies (
                    #[trigger] writes@[i])@.len() <= OUT_BUF by {
                        if i < sent.len() {
                            assert(writes@.drop_last()[i] == writes@[i]);
                        }
                    }
                    assert(writes@.take(old(writes)@.len() as int) =~= sent.take(
                        old(writes)@.len() as int,
                    )) by {
                        assert forall|i: int| 0 <= i < old(writes)@.len() implies writes@[i]
                            == sent[i] by {
                            assert(writes@.drop_last()[i] == writes@[i]);
                        }
                    }
                    assert(userlib::stream(sent) + held + listed(name) =~= userlib::stream(writes@)
                        + self@);
                } else {
                    assert(userlib::stream(sent) + (held + listed(name)) =~= userlib::stream(sent)
                        + held + listed(name));
                }
                assert(userlib::stream(sent) + held + listed(name) =~= userlib::stream(
                    old(writes)@,
                ) + old(self)@ + (listing(all.take(at as int)) + listed(name)));
            }
            at += 1;
        }
        assert(all.take(total as int) =~= all);
    }

    /// The last write, where anything is left for it.
    pub fn rest(&self) -> (r: Option<&[u8]>)
        ensures
            r is Some <==> self@.len() > 0,
            r matches Some(bytes) ==> bytes@ == self@,
    {
        if self.held.len() > 0 {
            Some(self.held.as_slice())
        } else {
            None
        }
    }

    /// Takes the answer of a write.
    pub fn note_write(&mut self, written: i64)
        ensures
            final(self)@ == old(self)@,
            final(self).spec_failed() == (if written < 0 {
                3
            } else {
                old(self).spec_failed()
            }),
    {
        if written < 0 {
            self.failed = 3;
        }
    }

    /// Takes the answer of a read of the directory; true where there is more.
    pub fn note_read(&mut self, got: i64) -> (more: bool)
        ensures
            more == (got > 0),
            final(self)@ == old(self)@,
            final(self).spec_failed() == (if got < 0 {
                2
            } else {
                old(self).spec_failed()
            }),
    {
        if got < 0 {
            self.failed = 2;
        }
        got > 0
    }

    /// The status that the program ends with.
    pub fn failed(&self) -> (r: u64)
        ensures
            r == self.spec_failed(),
    {
        self.failed
    }
}

/// What is said of a status.
pub open spec fn message(status: u64) -> Seq<u8> {
    if status == 1 {
        bytes::ascii("ls: cannot open\n"@)
    } else if status == 2 {
        bytes::ascii("ls: cannot read the directory\n"@)
    } else {
        Seq::empty()
    }
}

/// What is said of a status, on the error output. Of a failed write nothing is
/// said.
pub fn farewell(status: u64) -> (r: Vec<u8>)
    ensures
        r@ == message(status),
{
    proof {
        reveal_strlit("ls: cannot open\n");
        reveal_strlit("ls: cannot read the directory\n");
    }
    if status == 1 {
        crate::bytes::bytes_of("ls: cannot open\n")
    } else if status == 2 {
        crate::bytes::bytes_of("ls: cannot read the directory\n")
    } else {
        let none: Vec<u8> = Vec::new();
        assert(none@ =~= Seq::<u8>::empty());
        none
    }
}

/// Names are listed in order, each on a line of its own; only a name that is
/// longer than a write is cut.
pub proof fn every_name_has_its_line(names: Seq<Seq<u8>>, name: Seq<u8>)
    ensures
        name.len() <= 511 ==> listing(names.push(name)) == listing(names) + name.push(NEWLINE),
        name.len() > 511 ==> listing(names.push(name)) == listing(names) + name.take(511).push(
            NEWLINE,
        ),
        listing(Seq::empty()).len() == 0,
{
    assert(names.push(name).drop_last() =~= names);
}

/// Names that fit one write are gathered for it, and nothing is written before.
pub proof fn names_that_fit_are_written_at_once(
    writes: Seq<Seq<u8>>,
    held: Seq<u8>,
    names: Seq<Seq<u8>>,
)
    requires
        held.len() + listing(names).len() <= 512,
        forall|i: int| 0 <= i < names.len() ==> (#[trigger] names[i]).len() <= 511,
    ensures
        gathered(writes, held, names) == (writes, held + listing(names)),
    decreases names.len(),
{
    if names.len() == 0 {
        assert(held + listing(names) =~= held);
    } else {
        let before = names.drop_last();
        assert(before.push(names.last()) =~= names);
        every_name_has_its_line(before, names.last());
        assert(names.last() == names[names.len() - 1]);
        assert forall|i: int| 0 <= i < before.len() implies (#[trigger] before[i]).len() <= 511 by {
            assert(before[i] == names[i]);
        }
        names_that_fit_are_written_at_once(writes, held, before);
        assert(held + listing(before) + listed(names.last()) =~= held + listing(names));
    }
}

/// However names are gathered, everything is written in the end, in order.
pub proof fn gathering_loses_no_name(
    writes: Seq<Seq<u8>>,
    held: Seq<u8>,
    names: Seq<Seq<u8>>,
)
    ensures
        all_written(gathered(writes, held, names).0) + gathered(writes, held, names).1
            == all_written(writes) + held + listing(names),
    decreases names.len(),
{
    if names.len() == 0 {
        assert(all_written(writes) + held + listing(names) =~= all_written(writes) + held);
    } else {
        let before = names.drop_last();
        gathering_loses_no_name(writes, held, before);
        let (sent, kept) = gathered(writes, held, before);
        let last = listed(names.last());
        assert(sent.push(kept).drop_last() =~= sent);
        assert(all_written(sent) + (kept + last) =~= all_written(sent) + kept + last);
        assert(all_written(writes) + held + listing(before) + last =~= all_written(writes) + held
            + (listing(before) + last));
    }
}

/// What writes send, one behind the other.
pub open spec fn all_written(writes: Seq<Seq<u8>>) -> Seq<u8>
    decreases writes.len(),
{
    if writes.len() == 0 {
        Seq::empty()
    } else {
        all_written(writes.drop_last()) + writes.last()
    }
}

/// Of a directory that cannot be opened or read it is said so; of any other end
/// nothing.
pub proof fn failures_are_told(status: u64)
    ensures
        status == 1 ==> message(status) == bytes::ascii("ls: cannot open\n"@),
        status == 2 ==> message(status) == bytes::ascii("ls: cannot read the directory\n"@),
        status != 1 && status != 2 ==> message(status).len() == 0,
{
}

} // verus!
