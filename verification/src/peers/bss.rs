//! `bss-test`: looks at the memory that a program begins with: all of it zero,
//! and on the same page as what the program brings.
use crate::bytes;
use vstd::prelude::*;

verus! {

/// Bytes of the memory that is looked at.
pub const LENGTH: usize = 8192;

/// Bytes of a page.
pub const PAGE: u64 = 4096;

/// Whether memory is all zero.
pub open spec fn zeroed(memory: Seq<u8>) -> bool {
    forall|i: int| 0 <= i < memory.len() ==> #[trigger] memory[i] == 0
}

/// Whether memory is all zero.
pub fn all_zero(memory: &[u8]) -> (r: bool)
    ensures
        r == zeroed(memory@),
{
    let mut at: usize = 0;
    while at < memory.len()
        invariant
            at <= memory@.len(),
            forall|i: int| 0 <= i < at ==> #[trigger] memory@[i] == 0,
        decreases memory@.len() - at,
    {
        if memory[at] != 0 {
            return false;
        }
        at += 1;
    }
    true
}

/// What is said, and the status: one where the memory was not zero, two where
/// its two ends did not keep what was written to them, three where it does not
/// share a page with the program's data.
pub open spec fn message(status: u64) -> Seq<u8> {
    if status == 1 {
        bytes::ascii("bss-test: the .bss was not zero\n"@)
    } else if status == 2 {
        bytes::ascii("bss-test: the .bss did not keep what was written\n"@)
    } else if status == 3 {
        bytes::ascii(
            "bss-test: .data and .bss do not share a page; this build cannot prove ADR-0039\n"@,
        )
    } else {
        bytes::ascii(
            "bss-test: the .bss reads as zero, keeps writes, and shares a page with .data\n"@,
        )
    }
}

/// The status of what was found.
pub open spec fn verdict(zero: bool, first: u8, last: u8, data: u64, memory: u64) -> u64 {
    if !zero {
        1
    } else if first != 0xa5 || last != 0x5a {
        2
    } else if data / PAGE != memory / PAGE {
        3
    } else {
        0
    }
}

/// Judges what was found: whether the memory was zero, what its two ends hold
/// after something was written to them, and the addresses of the program's data
/// and of the memory.
pub fn judge(zero: bool, first: u8, last: u8, data: u64, memory: u64) -> (r: (Vec<u8>, u64))
    ensures
        r.1 == verdict(zero, first, last, data, memory),
        r.0@ == message(r.1),
{
    proof {
        reveal_strlit("bss-test: the .bss was not zero\n");
        reveal_strlit("bss-test: the .bss did not keep what was written\n");
        reveal_strlit(
            "bss-test: .data and .bss do not share a page; this build cannot prove ADR-0039\n",
        );
        reveal_strlit(
            "bss-test: the .bss reads as zero, keeps writes, and shares a page with .data\n",
        );
    }
    if !zero {
        return (crate::bytes::bytes_of("bss-test: the .bss was not zero\n"), 1);
    }
    if first != 0xa5 || last != 0x5a {
        return (crate::bytes::bytes_of("bss-test: the .bss did not keep what was written\n"), 2);
    }
    if data / PAGE != memory / PAGE {
        return (
            crate::bytes::bytes_of(
                "bss-test: .data and .bss do not share a page; this build cannot prove ADR-0039\n",
            ),
            3,
        );
    }
    (
        crate::bytes::bytes_of(
            "bss-test: the .bss reads as zero, keeps writes, and shares a page with .data\n",
        ),
        0,
    )
}

/// All is well exactly where the memory was zero, kept what was written to its two
/// ends, and is on the page of the data; and the first thing that is not so is the
/// status.
pub proof fn the_first_fault_is_the_status(zero: bool, first: u8, last: u8, data: u64, memory: u64)
    ensures
        verdict(zero, first, last, data, memory) == 0 <==> zero && first == 0xa5 && last == 0x5a
            && data / 4096 == memory / 4096,
        !zero ==> verdict(zero, first, last, data, memory) == 1,
        zero && (first != 0xa5 || last != 0x5a) ==> verdict(zero, first, last, data, memory) == 2,
        zero && first == 0xa5 && last == 0x5a && data / 4096 != memory / 4096 ==> verdict(
            zero,
            first,
            last,
            data,
            memory,
        ) == 3,
        message(1) == bytes::ascii("bss-test: the .bss was not zero\n"@),
        message(2) == bytes::ascii("bss-test: the .bss did not keep what was written\n"@),
        message(3) == bytes::ascii(
            "bss-test: .data and .bss do not share a page; this build cannot prove ADR-0039\n"@,
        ),
        message(0) == bytes::ascii(
            "bss-test: the .bss reads as zero, keeps writes, and shares a page with .data\n"@,
        ),
{
}

/// Memory is zero where each of its bytes is, and one byte that is not zero is
/// noticed wherever it is.
pub proof fn every_byte_is_looked_at(memory: Seq<u8>, at: int)
    requires
        0 <= at < memory.len(),
    ensures
        zeroed(memory) ==> memory[at] == 0,
        memory[at] != 0 ==> !zeroed(memory),
        zeroed(Seq::new(memory.len(), |i: int| 0u8)),
        zeroed(memory.take(at)) && zeroed(memory.skip(at)) ==> zeroed(memory),
{
    if zeroed(memory.take(at)) && zeroed(memory.skip(at)) {
        assert forall|i: int| 0 <= i < memory.len() implies #[trigger] memory[i] == 0 by {
            if i < at {
                assert(memory.take(at)[i] == 0);
            } else {
                assert(memory.skip(at)[i - at] == 0);
            }
        }
    }
}

} // verus!
