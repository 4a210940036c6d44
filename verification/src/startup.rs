//! The stack that a program starts on: the kernel writes the arguments and the
//! environment there, and the program reads them.
use crate::bytes::{self, find};
use crate::le;
use vstd::prelude::*;

verus! {

/// The most arguments.
pub const MAX_ARGV: usize = 8;

/// The most environment lines.
pub const MAX_ENVP: usize = 8;

/// The size of the stack.
pub const PAGE: usize = 4096;

/// A list of strings as sequences.
pub open spec fn strings(items: Seq<Vec<u8>>) -> Seq<Seq<u8>> {
    Seq::new(items.len(), |i: int| items[i]@)
}

/// The bytes that strings take with a zero byte behind each.
pub open spec fn packed(items: Seq<Seq<u8>>) -> int
    decreases items.len(),
{
    if items.len() == 0 {
        0
    } else {
        packed(items.drop_last()) + items.last().len() + 1
    }
}

/// Where the string `i` stands when strings are packed downwards from `from`.
pub open spec fn place(from: int, items: Seq<Seq<u8>>, i: int) -> int {
    from - packed(items.take(i + 1))
}

/// Every string stands in its place with a zero byte behind it.
pub open spec fn placed(page: Seq<u8>, from: int, items: Seq<Seq<u8>>) -> bool {
    forall|i: int|
        0 <= i < items.len() ==> page.subrange(
            #[trigger] place(from, items, i),
            place(from, items, i) + items[i].len() + 1,
        ) == items[i].push(0)
}

/// The words of the table: the count of arguments, their addresses, a zero, the
/// addresses of the environment lines, a zero, and the empty auxiliary vector.
pub open spec fn table(page_base: int, argv: Seq<Seq<u8>>, envp: Seq<Seq<u8>>) -> Seq<int> {
    seq![argv.len() as int] + Seq::new(argv.len(), |i: int| page_base + place(PAGE as int, argv, i))
        + seq![0int] + Seq::new(
        envp.len(),
        |i: int| page_base + place(PAGE - packed(argv), envp, i),
    ) + seq![0int, 0, 0]
}

/// How many bytes the table takes.
pub open spec fn table_size(argv: Seq<Seq<u8>>, envp: Seq<Seq<u8>>) -> int {
    8 * (5 + argv.len() + envp.len()) as int
}

/// The lowest byte of the strings.
pub open spec fn strings_low(argv: Seq<Seq<u8>>, envp: Seq<Seq<u8>>) -> int {
    PAGE - packed(argv) - packed(envp)
}

/// Where the table begins: below the strings, on a multiple of sixteen.
pub open spec fn table_at(argv: Seq<Seq<u8>>, envp: Seq<Seq<u8>>) -> int {
    (strings_low(argv, envp) / 16 * 16 - table_size(argv, envp)) / 16 * 16
}

/// Whether strings and table fit the page.
pub open spec fn fits(argv: Seq<Seq<u8>>, envp: Seq<Seq<u8>>) -> bool {
    &&& argv.len() <= MAX_ARGV
    &&& envp.len() <= MAX_ENVP
    &&& strings_low(argv, envp) >= 0
    &&& strings_low(argv, envp) / 16 * 16 >= table_size(argv, envp)
}

/// The page holds the strings and the table.
pub open spec fn built(
    page: Seq<u8>,
    page_base: int,
    argv: Seq<Seq<u8>>,
    envp: Seq<Seq<u8>>,
) -> bool {
    &&& page.len() == PAGE
    &&& placed(page, PAGE as int, argv)
    &&& placed(page, PAGE - packed(argv), envp)
    &&& forall|k: int|
        0 <= k < table(page_base, argv, envp).len() ==> #[trigger] le::field(
            page,
            table_at(argv, envp) + 8 * k,
            8,
        ) == table(page_base, argv, envp)[k]
}

/// Packed strings take no less than a part of them.
pub proof fn lemma_packed(items: Seq<Seq<u8>>, i: int)
    requires
        0 <= i <= items.len(),
    ensures
        0 <= packed(items.take(i)) <= packed(items),
        i < items.len() ==> packed(items.take(i + 1)) == packed(items.take(i)) + items[i].len() + 1,
    decreases items.len() - i,
{
    if i < items.len() {
        assert(items.take(i + 1).drop_last() =~= items.take(i));
        lemma_packed_nonneg(items.take(i));
        lemma_packed(items, i + 1);
    } else {
        assert(items.take(i) =~= items);
        lemma_packed_nonneg(items);
    }
}

proof fn lemma_packed_nonneg(items: Seq<Seq<u8>>)
    ensures
        packed(items) >= 0,
    decreases items.len(),
{
    if items.len() > 0 {
        lemma_packed_nonneg(items.drop_last());
    }
}

/// Puts `part` over the bytes from `at` on.
pub fn put(page: &mut Vec<u8>, at: usize, part: &[u8])
    requires
        at + part@.len() <= old(page)@.len(),
    ensures
        final(page)@ == le::patched(old(page)@, at as int, part@),
        final(page)@.len() == old(page)@.len(),
{
    let total: usize = page.len();
    let length: usize = part.len();
    let mut done: usize = 0;
    assert(le::patched(page@, at as int, part@.take(0)) =~= page@);
    while done < length
        invariant
            done <= length,
            length == part@.len(),
            at + length <= total,
            total == old(page)@.len(),
            page@.len() == total,
            page@ == le::patched(old(page)@, at as int, part@.take(done as int)),
        decreases length - done,
    {
        page.set(at + done, part[done]);
        done += 1;
        assert(page@ =~= le::patched(old(page)@, at as int, part@.take(done as int)));
    }
    assert(part@.take(length as int) =~= part@);
}

/// Packs strings downwards from `from`: where the lowest begins, and the address
/// of each. Nothing where they do not fit.
fn put_strings(page: &mut Vec<u8>, page_base: u64, items: &[Vec<u8>], from: usize) -> (r: Option<
    (usize, Vec<u64>),
>)
    requires
        old(page)@.len() == PAGE,
        from <= PAGE,
        page_base + PAGE <= u64::MAX,
    ensures
        final(page)@.len() == PAGE,
        r is Some <==> packed(strings(items@)) <= from,
        forall|i: int| from <= i < PAGE ==> final(page)@[i] == old(page)@[i],
        r matches Some((low, addresses)) ==> {
            &&& low == from - packed(strings(items@))
            &&& placed(final(page)@, from as int, strings(items@))
            &&& addresses@.len() == items@.len()
            &&& forall|i: int|
                0 <= i < items@.len() ==> #[trigger] addresses@[i] == page_base + place(
                    from as int,
                    strings(items@),
                    i,
                )
            &&& forall|i: int| 0 <= i < low ==> final(page)@[i] == old(page)@[i]
        },
{
    let ghost texts = strings(items@);
    let mut cursor: usize = from;
    let mut addresses: Vec<u64> = Vec::new();
    let mut index: usize = 0;
    assert(texts.take(0) =~= Seq::<Seq<u8>>::empty());
    while index < items.len()
        invariant
            index <= items@.len(),
            texts == strings(items@),
            page@.len() == PAGE,
            from <= PAGE,
            page_base + PAGE <= u64::MAX,
            cursor == from - packed(texts.take(index as int)),
            addresses@.len() == index,
            forall|i: int|
                0 <= i < index ==> #[trigger] addresses@[i] == page_base + place(
                    from as int,
                    texts,
                    i,
                ),
            forall|i: int|
                0 <= i < index ==> page@.subrange(
                    #[trigger] place(from as int, texts, i),
                    place(from as int, texts, i) + texts[i].len() + 1,
                ) == texts[i].push(0),
            forall|i: int| 0 <= i < cursor ==> page@[i] == old(page)@[i],
            forall|i: int| from <= i < PAGE ==> page@[i] == old(page)@[i],
        decreases items@.len() - index,
    {
        let length: usize = items[index].len();
        proof {
            lemma_packed(texts, index as int);
            lemma_packed(texts, index + 1);
        }
        if length >= cursor {
            return None;
        }
        let at: usize = cursor - length - 1;
        let ghost before = page@;
        put(page, at, items[index].as_slice());
        page.set(at + length, 0);
        addresses.push(page_base + at as u64);
        proof {
            assert(place(from as int, texts, index as int) == at);
            assert(page@.subrange(at as int, at + length + 1) =~= texts[index as int].push(0));
            assert forall|i: int| 0 <= i < index implies page@.subrange(
                #[trigger] place(from as int, texts, i),
                place(from as int, texts, i) + texts[i].len() + 1,
            ) == texts[i].push(0) by {
                lemma_packed(texts, i);
                lemma_packed_order(texts, i + 1, index as int);
                let low = place(from as int, texts, i);
                assert(low >= cursor);
                assert(page@.subrange(low, low + texts[i].len() + 1) =~= before.subrange(
                    low,
                    low + texts[i].len() + 1,
                ));
            }
        }
        cursor = at;
        index += 1;
    }
    assert(texts.take(items@.len() as int) =~= texts);
    Some((cursor, addresses))
}

proof fn lemma_packed_order(items: Seq<Seq<u8>>, a: int, b: int)
    requires
        0 <= a <= b <= items.len(),
    ensures
        packed(items.take(a)) <= packed(items.take(b)),
{
    lemma_packed(items.take(b), a);
    assert(items.take(b).take(a) =~= items.take(a));
}

/// Writes a run of words.
fn put_words(page: &mut Vec<u8>, at: usize, words: &[u64])
    requires
        old(page)@.len() == PAGE,
        at + 8 * words@.len() <= PAGE,
    ensures
        final(page)@.len() == PAGE,
        forall|k: int|
            0 <= k < words@.len() ==> #[trigger] le::field(final(page)@, at + 8 * k, 8)
                == words@[k],
        forall|i: int|
            (0 <= i < at || at + 8 * words@.len() <= i < PAGE) ==> final(page)@[i]
                == old(page)@[i],
{
    let mut index: usize = 0;
    let count: usize = words.len();
    while index < count
        invariant
            index <= count,
            count == words@.len(),
            at + 8 * count <= PAGE,
            page@.len() == PAGE,
            forall|k: int|
                0 <= k < index ==> #[trigger] le::field(page@, at + 8 * k, 8) == words@[k],
            forall|i: int|
                (0 <= i < at || at + 8 * index <= i < PAGE) ==> page@[i] == old(page)@[i],
        decreases count - index,
    {
        let ghost before = page@;
        le::write(page, at + 8 * index, words[index], 8);
        proof {
            let n = words@[index as int] as nat;
            le::lemma_limits();
            le::lemma_spelled_len(n, 8);
            le::written_field_reads_back(before, at + 8 * index, n, 8);
            assert forall|k: int| 0 <= k < index + 1 implies #[trigger] le::field(
                page@,
                at + 8 * k,
                8,
            ) == words@[k] by {
                if k < index {
                    le::other_field_stays(
                        before,
                        at + 8 * index,
                        le::spelled(n, 8),
                        at + 8 * k,
                        8,
                    );
                }
            }
        }
        index += 1;
    }
}

/// Builds the stack in its page, which stands at `page_base`: the address of the
/// table, which is the first stack pointer. Nothing where it does not fit.
pub fn build_initial_stack(
    page: &mut Vec<u8>,
    page_base: u64,
    argv: &[Vec<u8>],
    envp: &[Vec<u8>],
) -> (r: Option<u64>)
    requires
        old(page)@.len() == PAGE,
        page_base + PAGE <= u64::MAX,
    ensures
        final(page)@.len() == PAGE,
        r is Some <==> fits(strings(argv@), strings(envp@)),
        r matches Some(stack) ==> {
            &&& stack == page_base + table_at(strings(argv@), strings(envp@))
            &&& built(final(page)@, page_base as int, strings(argv@), strings(envp@))
            &&& forall|i: int|
                0 <= i < table_at(strings(argv@), strings(envp@)) ==> final(page)@[i]
                    == old(page)@[i]
        },
{
    let ghost args = strings(argv@);
    let ghost env = strings(envp@);
    if argv.len() > MAX_ARGV || envp.len() > MAX_ENVP {
        return None;
    }
    proof {
        lemma_packed_nonneg(args);
        lemma_packed_nonneg(env);
    }
    let (middle, arg_addresses): (usize, Vec<u64>) = match put_strings(
        page,
        page_base,
        argv,
        PAGE,
    ) {
        Some(pair) => pair,
        None => {
            return None;
        },
    };
    let ghost with_args = page@;
    let (low, env_addresses): (usize, Vec<u64>) = match put_strings(
        page,
        page_base,
        envp,
        middle,
    ) {
        Some(pair) => pair,
        None => {
            return None;
        },
    };
    let ghost with_env = page@;
    let size: usize = 8 * (5 + argv.len() + envp.len());
    let aligned: usize = low / 16 * 16;
    if aligned < size {
        return None;
    }
    let cursor: usize = (aligned - size) / 16 * 16;
    let mut words: Vec<u64> = Vec::new();
    words.push(argv.len() as u64);
    push_all(&mut words, arg_addresses.as_slice());
    words.push(0);
    push_all(&mut words, env_addresses.as_slice());
    words.push(0);
    words.push(0);
    words.push(0);
    put_words(page, cursor, words.as_slice());
    proof {
        let want = table(page_base as int, args, env);
        assert(words@.len() == want.len());
        assert forall|k: int| 0 <= k < want.len() implies words@[k] == want[k] by {}
        assert forall|i: int| 0 <= i < env.len() implies page@.subrange(
            #[trigger] place(middle as int, env, i),
            place(middle as int, env, i) + env[i].len() + 1,
        ) == env[i].push(0) by {
            lemma_packed(env, i);
            lemma_packed(env, i + 1);
            let at = place(middle as int, env, i);
            assert(page@.subrange(at, at + env[i].len() + 1) =~= with_env.subrange(
                at,
                at + env[i].len() + 1,
            ));
        }
        assert forall|i: int| 0 <= i < args.len() implies page@.subrange(
            #[trigger] place(PAGE as int, args, i),
            place(PAGE as int, args, i) + args[i].len() + 1,
        ) == args[i].push(0) by {
            lemma_packed(args, i);
            lemma_packed(args, i + 1);
            let at = place(PAGE as int, args, i);
            assert(page@.subrange(at, at + args[i].len() + 1) =~= with_args.subrange(
                at,
                at + args[i].len() + 1,
            ));
        }
    }
    Some(page_base + cursor as u64)
}

/// Appends words to words.
fn push_all(words: &mut Vec<u64>, more: &[u64])
    ensures
        final(words)@ == old(words)@ + more@,
{
    let mut at: usize = 0;
    while at < more.len()
        invariant
            at <= more@.len(),
            words@ == old(words)@ + more@.take(at as int),
        decreases more@.len() - at,
    {
        words.push(more[at]);
        at += 1;
    }
    assert(more@.take(more@.len() as int) =~= more@);
}

/// The first stack pointer is a multiple of sixteen, where the page is.
pub proof fn initial_stack_is_aligned(page_base: int, argv: Seq<Seq<u8>>, envp: Seq<Seq<u8>>)
    requires
        page_base % 16 == 0,
    ensures
        (page_base + table_at(argv, envp)) % 16 == 0,
{
}

/// The table lies in the page, below the strings.
pub proof fn lemma_table_above(argv: Seq<Seq<u8>>, envp: Seq<Seq<u8>>)
    requires
        fits(argv, envp),
    ensures
        0 <= table_at(argv, envp),
        table_at(argv, envp) + table_size(argv, envp) <= strings_low(argv, envp) <= PAGE,
        table(0, argv, envp).len() * 8 == table_size(argv, envp),
{
    lemma_packed_nonneg(argv);
    lemma_packed_nonneg(envp);
}

/// What stands below the table does not matter to it.
pub proof fn lemma_built_above(
    page: Seq<u8>,
    other: Seq<u8>,
    page_base: int,
    argv: Seq<Seq<u8>>,
    envp: Seq<Seq<u8>>,
)
    requires
        fits(argv, envp),
        built(page, page_base, argv, envp),
        other.len() == PAGE,
        forall|i: int| table_at(argv, envp) <= i < PAGE ==> other[i] == page[i],
    ensures
        built(other, page_base, argv, envp),
{
    lemma_table_above(argv, envp);
    lemma_packed_nonneg(argv);
    lemma_packed_nonneg(envp);
    let low = table_at(argv, envp);
    assert forall|i: int| 0 <= i < argv.len() implies other.subrange(
        #[trigger] place(PAGE as int, argv, i),
        place(PAGE as int, argv, i) + argv[i].len() + 1,
    ) == argv[i].push(0) by {
        lemma_packed(argv, i);
        lemma_packed(argv, i + 1);
        let at = place(PAGE as int, argv, i);
        assert(other.subrange(at, at + argv[i].len() + 1) =~= page.subrange(
            at,
            at + argv[i].len() + 1,
        ));
    }
    assert forall|i: int| 0 <= i < envp.len() implies other.subrange(
        #[trigger] place(PAGE - packed(argv), envp, i),
        place(PAGE - packed(argv), envp, i) + envp[i].len() + 1,
    ) == envp[i].push(0) by {
        lemma_packed(envp, i);
        lemma_packed(envp, i + 1);
        let at = place(PAGE - packed(argv), envp, i);
        assert(other.subrange(at, at + envp[i].len() + 1) =~= page.subrange(
            at,
            at + envp[i].len() + 1,
        ));
    }
    assert forall|k: int| 0 <= k < table(page_base, argv, envp).len() implies #[trigger] le::field(
        other,
        low + 8 * k,
        8,
    ) == table(page_base, argv, envp)[k] by {
        assert(other.subrange(low + 8 * k, low + 8 * k + 8) =~= page.subrange(
            low + 8 * k,
            low + 8 * k + 8,
        ));
        assert(le::field(page, low + 8 * k, 8) == table(page_base, argv, envp)[k]);
    }
}

/// The word at an address, where the page holds it.
pub open spec fn word(page: Seq<u8>, page_base: int, address: int) -> Option<int> {
    if page_base <= address && address + 8 <= page_base + page.len() {
        Some(le::field(page, address - page_base, 8))
    } else {
        None
    }
}

/// The string at an address, where the page holds it with its zero byte.
pub open spec fn text(page: Seq<u8>, page_base: int, address: int) -> Option<Seq<u8>> {
    let at = address - page_base;
    if 0 <= at < page.len() && bytes::first_at(page, 0, at) < page.len() {
        Some(page.subrange(at, bytes::first_at(page, 0, at)))
    } else {
        None
    }
}

/// The address of the argument `index`.
pub open spec fn argument_of(
    page: Seq<u8>,
    page_base: int,
    stack: int,
    index: int,
) -> Option<int> {
    match word(page, page_base, stack) {
        None => None,
        Some(count) => if index >= count {
            None
        } else {
            nonzero(word(page, page_base, stack + 8 * (1 + index)))
        },
    }
}

/// An address, where it is not zero.
pub open spec fn nonzero(address: Option<int>) -> Option<int> {
    match address {
        Some(a) => if a == 0 {
            None
        } else {
            Some(a)
        },
        None => None,
    }
}

/// The address of the environment line `index`.
pub open spec fn environment_line(
    page: Seq<u8>,
    page_base: int,
    stack: int,
    index: int,
) -> Option<int> {
    match word(page, page_base, stack) {
        None => None,
        Some(count) => nonzero(word(page, page_base, stack + 8 * (2 + count + index))),
    }
}

/// Whether an environment line is one of the variable `name`.
pub open spec fn sets(line: Seq<u8>, name: Seq<u8>) -> bool {
    line.len() > name.len() && line.take(name.len() as int) == name && line[name.len() as int]
        == '=' as u8
}

/// The address of the value of the variable `name`, from the environment line
/// whose word stands at `at` on.
pub open spec fn variable_from(
    page: Seq<u8>,
    page_base: int,
    at: int,
    name: Seq<u8>,
) -> Option<int>
    decreases page_base + page.len() - at,
{
    match nonzero(word(page, page_base, at)) {
        None => None,
        Some(address) => match text(page, page_base, address) {
            Some(line) => if sets(line, name) {
                Some(address + name.len() + 1)
            } else {
                variable_from(page, page_base, at + 8, name)
            },
            None => variable_from(page, page_base, at + 8, name),
        },
    }
}

/// The address of the value of the variable `name`.
pub open spec fn variable(
    page: Seq<u8>,
    page_base: int,
    stack: int,
    name: Seq<u8>,
) -> Option<int> {
    match word(page, page_base, stack) {
        None => None,
        Some(count) => variable_from(page, page_base, stack + 8 * (2 + count), name),
    }
}

/// The word at an address, where the page holds it.
pub fn read_word(page: &[u8], page_base: u64, address: u64) -> (r: Option<u64>)
    requires
        page_base + page@.len() <= u64::MAX,
    ensures
        r is Some <==> word(page@, page_base as int, address as int) is Some,
        r matches Some(value) ==> word(page@, page_base as int, address as int) == Some(
            value as int,
        ),
{
    if address < page_base || page.len() < 8 || address - page_base > (page.len() - 8) as u64 {
        return None;
    }
    Some(le::read(page, (address - page_base) as usize, 8))
}

/// The string at an address, where the page holds it with its zero byte.
pub fn read_text<'a>(page: &'a [u8], page_base: u64, address: u64) -> (r: Option<&'a [u8]>)
    requires
        page_base + page@.len() <= u64::MAX,
    ensures
        r is Some <==> text(page@, page_base as int, address as int) is Some,
        r matches Some(value) ==> text(page@, page_base as int, address as int) == Some(value@),
{
    if address < page_base || address - page_base >= page.len() as u64 {
        return None;
    }
    let at: usize = (address - page_base) as usize;
    let end: usize = find(page, 0, at);
    if end < page.len() {
        Some(&page[at..end])
    } else {
        None
    }
}

/// The address of the argument `index`.
pub fn argument(page: &[u8], page_base: u64, stack: u64, index: usize) -> (r: Option<u64>)
    requires
        page_base + page@.len() <= u64::MAX,
    ensures
        r is Some <==> argument_of(page@, page_base as int, stack as int, index as int) is Some,
        r matches Some(value) ==> argument_of(
            page@,
            page_base as int,
            stack as int,
            index as int,
        ) == Some(value as int),
{
    let count: u64 = match read_word(page, page_base, stack) {
        Some(count) => count,
        None => {
            return None;
        },
    };
    if index as u64 >= count {
        return None;
    }
    let far: u128 = stack as u128 + 8 * (1 + index as u128);
    if far > u64::MAX as u128 {
        return None;
    }
    match read_word(page, page_base, far as u64) {
        Some(address) => if address == 0 {
            None
        } else {
            Some(address)
        },
        None => None,
    }
}

/// The address of the environment line `index`.
pub fn environment_at(page: &[u8], page_base: u64, stack: u64, index: usize) -> (r: Option<u64>)
    requires
        page_base + page@.len() <= u64::MAX,
    ensures
        r is Some <==> environment_line(page@, page_base as int, stack as int, index as int)
            is Some,
        r matches Some(value) ==> environment_line(
            page@,
            page_base as int,
            stack as int,
            index as int,
        ) == Some(value as int),
{
    let count: u64 = match read_word(page, page_base, stack) {
        Some(count) => count,
        None => {
            return None;
        },
    };
    let far: u128 = stack as u128 + 8 * (2 + count as u128 + index as u128);
    if far > u64::MAX as u128 {
        return None;
    }
    match read_word(page, page_base, far as u64) {
        Some(address) => if address == 0 {
            None
        } else {
            Some(address)
        },
        None => None,
    }
}

/// Whether an environment line is one of the variable `name`.
fn line_sets(line: &[u8], name: &[u8]) -> (r: bool)
    ensures
        r == sets(line@, name@),
{
    if line.len() <= name.len() {
        return false;
    }
    let same: bool = crate::bytes::equal(&line[0..name.len()], name);
    assert(line@.subrange(0, name@.len() as int) =~= line@.take(name@.len() as int));
    same && line[name.len()] == '=' as u8
}

/// The address of the value of the variable `name`: what stands behind the
/// equals sign of the first line that has exactly that name.
pub fn environment(page: &[u8], page_base: u64, stack: u64, name: &[u8]) -> (r: Option<u64>)
    requires
        page_base + page@.len() <= u64::MAX,
    ensures
        r is Some <==> variable(page@, page_base as int, stack as int, name@) is Some,
        r matches Some(value) ==> variable(page@, page_base as int, stack as int, name@) == Some(
            value as int,
        ),
{
    let count: u64 = match read_word(page, page_base, stack) {
        Some(count) => count,
        None => {
            return None;
        },
    };
    let mut at: u128 = stack as u128 + 8 * (2 + count as u128);
    let end: u128 = page_base as u128 + page.len() as u128;
    while at <= end
        invariant
            page_base + page@.len() <= u64::MAX,
            end == page_base + page@.len(),
            at <= 16 * u64::MAX + 16,
            variable(page@, page_base as int, stack as int, name@) == variable_from(
                page@,
                page_base as int,
                at as int,
                name@,
            ),
        decreases end + 8 - at,
    {
        let address: u64 = match read_word(page, page_base, at as u64) {
            Some(address) => address,
            None => {
                return None;
            },
        };
        if address == 0 {
            return None;
        }
        match read_text(page, page_base, address) {
            Some(line) => {
                if line_sets(line, name) {
                    proof {
                        bytes::lemma_first_at(page@, 0, address - page_base);
                    }
                    return Some(address + name.len() as u64 + 1);
                }
            },
            None => {},
        }
        at = at + 8;
    }
    None
}

/// The length of the string that `text` begins with, but no more than `limit`.
pub fn length_of(text: &[u8], limit: usize) -> (r: usize)
    ensures
        r == (if bytes::first_at(text@, 0, 0) < limit {
            bytes::first_at(text@, 0, 0)
        } else {
            limit as int
        }),
{
    let end: usize = find(text, 0, 0);
    if end < limit {
        end
    } else {
        limit
    }
}

/// The stack that a program started on: its page, where the page stands, and
/// the first stack pointer.
pub struct Start {
    pub page: Vec<u8>,
    pub page_base: u64,
    pub stack: u64,
}

/// The most bytes of a value that are read.
pub const VALUE_MAX: usize = 4096;

/// A string cut to the bytes of a value that are read.
pub open spec fn cut_value(value: Seq<u8>) -> Seq<u8> {
    if value.len() <= VALUE_MAX {
        value
    } else {
        value.take(VALUE_MAX as int)
    }
}

impl Start {
    /// The page ends inside the address space.
    pub open spec fn wf(&self) -> bool {
        self.page_base + self.page@.len() <= u64::MAX
    }

    /// The value of a variable, whole.
    pub open spec fn spec_environment(&self, name: Seq<u8>) -> Option<Seq<u8>> {
        match variable(self.page@, self.page_base as int, self.stack as int, name) {
            None => None,
            Some(address) => text(self.page@, self.page_base as int, address),
        }
    }

    /// The value of a variable, as far as it is read.
    pub open spec fn spec_value(&self, name: Seq<u8>) -> Option<Seq<u8>> {
        match self.spec_environment(name) {
            None => None,
            Some(value) => Some(cut_value(value)),
        }
    }

    /// An argument.
    pub open spec fn spec_argument(&self, index: int) -> Option<Seq<u8>> {
        match argument_of(self.page@, self.page_base as int, self.stack as int, index) {
            None => None,
            Some(address) => text(self.page@, self.page_base as int, address),
        }
    }

    /// The value of a variable, whole.
    pub fn environment(&self, name: &[u8]) -> (r: Option<&[u8]>)
        requires
            self.wf(),
        ensures
            r is Some <==> self.spec_environment(name@) is Some,
            r matches Some(value) ==> self.spec_environment(name@) == Some(value@),
    {
        match environment(self.page.as_slice(), self.page_base, self.stack, name) {
            Some(address) => read_text(self.page.as_slice(), self.page_base, address),
            None => None,
        }
    }

    /// The value of a variable, as far as it is read.
    pub fn value(&self, name: &[u8]) -> (r: Option<Vec<u8>>)
        requires
            self.wf(),
        ensures
            r is Some <==> self.spec_value(name@) is Some,
            r matches Some(value) ==> self.spec_value(name@) == Some(value@),
    {
        match self.environment(name) {
            Some(value) => {
                let take: usize = crate::bytes::least(value.len(), VALUE_MAX);
                assert(value@.subrange(0, take as int) =~= cut_value(value@));
                Some(crate::bytes::copy_of(&value[0..take]))
            },
            None => None,
        }
    }

    /// An argument.
    pub fn argument(&self, index: usize) -> (r: Option<Vec<u8>>)
        requires
            self.wf(),
        ensures
            r is Some <==> self.spec_argument(index as int) is Some,
            r matches Some(value) ==> self.spec_argument(index as int) == Some(value@),
    {
        match argument(self.page.as_slice(), self.page_base, self.stack, index) {
            Some(address) => match read_text(self.page.as_slice(), self.page_base, address) {
                Some(value) => Some(crate::bytes::copy_of(value)),
                None => None,
            },
            None => None,
        }
    }
}

proof fn lemma_text_is(page: Seq<u8>, page_base: int, at: int, s: Seq<u8>)
    requires
        0 <= at,
        at + s.len() + 1 <= page.len(),
        page.subrange(at, at + s.len() + 1) == s.push(0),
        !s.contains(0u8),
    ensures
        text(page, page_base, page_base + at) == Some(s),
{
    let part = page.subrange(at, at + s.len() + 1);
    assert forall|i: int| at <= i < at + s.len() implies page[i] != 0 by {
        assert(part[i - at] == page[i]);
        assert(s.push(0)[i - at] == s[i - at]);
        assert(s.contains(s[i - at]));
    }
    assert(part[s.len() as int] == 0);
    bytes::lemma_first_at_is(page, 0, at, at + s.len());
    assert(page.subrange(at, at + s.len()) =~= s) by {
        assert forall|i: int| 0 <= i < s.len() implies page[at + i] == s[i] by {
            assert(part[i] == s.push(0)[i]);
        }
    }
}

/// A program reads back the arguments that the kernel wrote: each argument in
/// its turn, and none behind the last.
pub proof fn arguments_read_back(
    page: Seq<u8>,
    page_base: int,
    argv: Seq<Seq<u8>>,
    envp: Seq<Seq<u8>>,
    index: int,
)
    requires
        0 < page_base,
        fits(argv, envp),
        built(page, page_base, argv, envp),
        forall|i: int| 0 <= i < argv.len() ==> !(#[trigger] argv[i]).contains(0u8),
        0 <= index,
    ensures
        index < argv.len() ==> (argument_of(
            page,
            page_base,
            page_base + table_at(argv, envp),
            index,
        ) matches Some(address) && text(page, page_base, address) == Some(argv[index])),
        index >= argv.len() ==> argument_of(
            page,
            page_base,
            page_base + table_at(argv, envp),
            index,
        ) is None,
{
    let at = table_at(argv, envp);
    let words = table(page_base, argv, envp);
    lemma_packed_nonneg(argv);
    lemma_packed_nonneg(envp);
    assert(le::field(page, at + 8 * 0, 8) == words[0]);
    if index < argv.len() {
        assert(le::field(page, at + 8 * (1 + index), 8) == words[1 + index]);
        lemma_packed(argv, index);
        lemma_packed(argv, index + 1);
        let low = place(PAGE as int, argv, index);
        assert(words[1 + index] == page_base + low);
        lemma_text_is(page, page_base, low, argv[index]);
    }
}

/// A program reads back the environment that the kernel wrote, line by line.
pub proof fn environment_reads_back(
    page: Seq<u8>,
    page_base: int,
    argv: Seq<Seq<u8>>,
    envp: Seq<Seq<u8>>,
    index: int,
)
    requires
        0 < page_base,
        fits(argv, envp),
        built(page, page_base, argv, envp),
        forall|i: int| 0 <= i < envp.len() ==> !(#[trigger] envp[i]).contains(0u8),
        0 <= index <= envp.len(),
    ensures
        index < envp.len() ==> (environment_line(
            page,
            page_base,
            page_base + table_at(argv, envp),
            index,
        ) matches Some(address) && text(page, page_base, address) == Some(envp[index])),
        index == envp.len() ==> environment_line(
            page,
            page_base,
            page_base + table_at(argv, envp),
            index,
        ) is None,
{
    let at = table_at(argv, envp);
    let words = table(page_base, argv, envp);
    lemma_packed_nonneg(argv);
    lemma_packed_nonneg(envp);
    assert(le::field(page, at + 8 * 0, 8) == words[0]);
    let k = 2 + argv.len() + index;
    assert(le::field(page, at + 8 * k, 8) == words[k]);
    if index < envp.len() {
        lemma_packed(envp, index);
        lemma_packed(envp, index + 1);
        let low = place(PAGE - packed(argv), envp, index);
        assert(words[k] == page_base + low);
        lemma_text_is(page, page_base, low, envp[index]);
    }
}

/// The value of a variable in an environment: what stands behind the equals
/// sign of the first line that has exactly that name.
pub open spec fn value_in(envp: Seq<Seq<u8>>, name: Seq<u8>) -> Option<Seq<u8>>
    decreases envp.len(),
{
    if envp.len() == 0 {
        None
    } else if sets(envp[0], name) {
        Some(envp[0].skip(name.len() as int + 1))
    } else {
        value_in(envp.skip(1), name)
    }
}

/// A program finds a variable with the value that the kernel's environment
/// gives it, and finds none that is not there.
pub proof fn variables_read_back(
    page: Seq<u8>,
    page_base: int,
    argv: Seq<Seq<u8>>,
    envp: Seq<Seq<u8>>,
    name: Seq<u8>,
)
    requires
        0 < page_base,
        fits(argv, envp),
        built(page, page_base, argv, envp),
        forall|i: int| 0 <= i < envp.len() ==> !(#[trigger] envp[i]).contains(0u8),
    ensures
        ({
            let found = variable(page, page_base, page_base + table_at(argv, envp), name);
            match value_in(envp, name) {
                Some(value) => found matches Some(address) && text(page, page_base, address)
                    == Some(value),
                None => found is None,
            }
        }),
{
    let at = table_at(argv, envp);
    let words = table(page_base, argv, envp);
    lemma_packed_nonneg(argv);
    lemma_packed_nonneg(envp);
    assert(le::field(page, at + 8 * 0, 8) == words[0]);
    lemma_variable_from(page, page_base, argv, envp, name, 0);
    assert(envp.skip(0) =~= envp);
}

proof fn lemma_variable_from(
    page: Seq<u8>,
    page_base: int,
    argv: Seq<Seq<u8>>,
    envp: Seq<Seq<u8>>,
    name: Seq<u8>,
    index: int,
)
    requires
        0 < page_base,
        fits(argv, envp),
        built(page, page_base, argv, envp),
        forall|i: int| 0 <= i < envp.len() ==> !(#[trigger] envp[i]).contains(0u8),
        0 <= index <= envp.len(),
    ensures
        ({
            let from = page_base + table_at(argv, envp) + 8 * (2 + argv.len() + index);
            let found = variable_from(page, page_base, from, name);
            match value_in(envp.skip(index), name) {
                Some(value) => found matches Some(address) && text(page, page_base, address)
                    == Some(value),
                None => found is None,
            }
        }),
    decreases envp.len() - index,
{
    let at = table_at(argv, envp);
    let words = table(page_base, argv, envp);
    lemma_packed_nonneg(argv);
    lemma_packed_nonneg(envp);
    let k = 2 + argv.len() + index;
    assert(le::field(page, at + 8 * k, 8) == words[k]);
    if index < envp.len() {
        lemma_packed(envp, index);
        lemma_packed(envp, index + 1);
        let line = envp[index];
        let low = place(PAGE - packed(argv), envp, index);
        assert(words[k] == page_base + low);
        lemma_text_is(page, page_base, low, line);
        assert(envp.skip(index)[0] == line);
        assert(envp.skip(index).skip(1) =~= envp.skip(index + 1));
        if sets(line, name) {
            let value = line.skip(name.len() as int + 1);
            let part = page.subrange(low, low + line.len() + 1);
            let start = low + name.len() + 1;
            assert(page.subrange(start, start + value.len() + 1) =~= value.push(0)) by {
                assert forall|i: int| 0 <= i < value.len() + 1 implies page[start + i]
                    == value.push(0)[i] by {
                    assert(part[name.len() + 1 + i] == line.push(0)[name.len() + 1 + i]);
                }
            }
            assert(!value.contains(0u8)) by {
                if value.contains(0u8) {
                    let i = choose|i: int| 0 <= i < value.len() && value[i] == 0u8;
                    assert(line[name.len() + 1 + i] == 0u8);
                    assert(line.contains(0u8));
                }
            }
            lemma_text_is(page, page_base, start, value);
        } else {
            lemma_variable_from(page, page_base, argv, envp, name, index + 1);
        }
    } else {
        assert(envp.skip(index) =~= Seq::<Seq<u8>>::empty());
    }
}

/// A string more takes its bytes and a zero behind them.
pub proof fn a_string_takes_its_bytes_and_a_zero(items: Seq<Seq<u8>>, item: Seq<u8>)
    ensures
        packed(items.push(item)) == packed(items) + item.len() + 1,
        packed(Seq::empty()) == 0,
{
    assert(items.push(item).drop_last() =~= items);
}

/// Arguments and environment fit where there are not more than eight of each, and
/// the strings leave room below them for the table.
pub proof fn what_fits_the_first_stack(argv: Seq<Seq<u8>>, envp: Seq<Seq<u8>>)
    requires
        argv.len() <= 8,
        envp.len() <= 8,
    ensures
        packed(argv) + packed(envp) + 15 + 8 * (5 + argv.len() + envp.len()) <= 4096 ==> fits(
            argv,
            envp,
        ),
        packed(argv) + packed(envp) + 8 * (5 + argv.len() + envp.len()) > 4096 ==> !fits(
            argv,
            envp,
        ),
{
}

/// More than eight arguments or environment lines never fit.
pub proof fn too_many_strings_never_fit(argv: Seq<Seq<u8>>, envp: Seq<Seq<u8>>)
    requires
        argv.len() > 8 || envp.len() > 8,
    ensures
        !fits(argv, envp),
{
}

/// What a program finds from its first stack pointer upwards: how many arguments
/// there are, the address of each, a zero, the address of each environment line,
/// a zero, and two zeros more. Every address is that of the string, with a zero
/// byte behind it.
pub proof fn the_first_stack_is_laid_out(
    page: Seq<u8>,
    page_base: int,
    argv: Seq<Seq<u8>>,
    envp: Seq<Seq<u8>>,
    i: int,
)
    requires
        fits(argv, envp),
        built(page, page_base, argv, envp),
        0 <= i,
    ensures
        ({
            let at = table_at(argv, envp);
            let n = argv.len();
            let m = envp.len();
            &&& 0 <= at
            &&& at + 8 * (5 + n + m) <= 4096
            &&& le::field(page, at, 8) == n
            &&& i < n ==> ({
                let place = le::field(page, at + 8 * (1 + i), 8) - page_base;
                &&& at + 8 * (5 + n + m) <= place
                &&& place + argv[i].len() + 1 <= 4096
                &&& page.subrange(place, place + argv[i].len() + 1) == argv[i].push(0)
            })
            &&& le::field(page, at + 8 * (1 + n), 8) == 0
            &&& i < m ==> ({
                let place = le::field(page, at + 8 * (2 + n + i), 8) - page_base;
                &&& at + 8 * (5 + n + m) <= place
                &&& place + envp[i].len() + 1 <= 4096
                &&& page.subrange(place, place + envp[i].len() + 1) == envp[i].push(0)
            })
            &&& le::field(page, at + 8 * (2 + n + m), 8) == 0
            &&& le::field(page, at + 8 * (3 + n + m), 8) == 0
            &&& le::field(page, at + 8 * (4 + n + m), 8) == 0
        }),
{
    let at = table_at(argv, envp);
    let words = table(page_base, argv, envp);
    let n = argv.len() as int;
    let m = envp.len() as int;
    lemma_table_above(argv, envp);
    lemma_packed_nonneg(argv);
    lemma_packed_nonneg(envp);
    assert(le::field(page, at + 8 * 0, 8) == words[0]);
    assert(le::field(page, at + 8 * (1 + n), 8) == words[1 + n]);
    assert(le::field(page, at + 8 * (2 + n + m), 8) == words[2 + n + m]);
    assert(le::field(page, at + 8 * (3 + n + m), 8) == words[3 + n + m]);
    assert(le::field(page, at + 8 * (4 + n + m), 8) == words[4 + n + m]);
    if i < n {
        assert(le::field(page, at + 8 * (1 + i), 8) == words[1 + i]);
        lemma_packed(argv, i);
        lemma_packed(argv, i + 1);
        let low = place(PAGE as int, argv, i);
        assert(words[1 + i] == page_base + low);
        assert(page.subrange(low, low + argv[i].len() + 1) == argv[i].push(0));
    }
    if i < m {
        assert(le::field(page, at + 8 * (2 + n + i), 8) == words[2 + n + i]);
        lemma_packed(envp, i);
        lemma_packed(envp, i + 1);
        let low = place(PAGE - packed(argv), envp, i);
        assert(words[2 + n + i] == page_base + low);
        assert(page.subrange(low, low + envp[i].len() + 1) == envp[i].push(0));
    }
}

/// A line sets the name before its equals sign, and no other one.
pub proof fn a_line_sets_one_name(name: Seq<u8>, value: Seq<u8>, other: Seq<u8>)
    requires
        !name.contains('=' as u8),
        !other.contains('=' as u8),
    ensures
        sets(name + seq!['=' as u8] + value, other) <==> other == name,
{
    let line = name + seq!['=' as u8] + value;
    assert(line.take(name.len() as int) =~= name);
    assert(line[name.len() as int] == '=' as u8);
    if sets(line, other) {
        let k = other.len() as int;
        if k < name.len() {
            assert(line[k] == name[k]);
            assert(name.contains(name[k]));
        } else if k > name.len() {
            assert(line.take(k)[name.len() as int] == '=' as u8);
            assert(other.contains(other[name.len() as int]));
        } else {
            assert(line.take(k) =~= name);
        }
    }
}

/// The value of a variable is what stands behind the equals sign of the first line
/// that sets it.
pub proof fn the_first_line_of_a_name_counts(
    before: Seq<Seq<u8>>,
    name: Seq<u8>,
    value: Seq<u8>,
    rest: Seq<Seq<u8>>,
)
    requires
        forall|i: int| 0 <= i < before.len() ==> !sets(#[trigger] before[i], name),
    ensures
        value_in(before + seq![name + seq!['=' as u8] + value] + rest, name) == Some(value),
        value_in(before, name) is None,
    decreases before.len(),
{
    let line = name + seq!['=' as u8] + value;
    let all = before + seq![line] + rest;
    if before.len() == 0 {
        assert(all[0] == line);
        assert(line.take(name.len() as int) =~= name);
        assert(line.skip(name.len() as int + 1) =~= value);
    } else {
        assert(all[0] == before[0]);
        assert(!sets(before[0], name));
        let fewer = before.skip(1);
        assert forall|i: int| 0 <= i < fewer.len() implies !sets(#[trigger] fewer[i], name) by {
            assert(fewer[i] == before[i + 1]);
        }
        the_first_line_of_a_name_counts(fewer, name, value, rest);
        assert(all.skip(1) =~= fewer + seq![line] + rest);
    }
}

/// A program that starts on the stack that the kernel built has the arguments and
/// the variables that it was given, and no others.
pub proof fn programs_have_what_they_were_given(
    start: Start,
    argv: Seq<Seq<u8>>,
    envp: Seq<Seq<u8>>,
    index: int,
    name: Seq<u8>,
)
    requires
        start.page_base > 0,
        fits(argv, envp),
        built(start.page@, start.page_base as int, argv, envp),
        start.stack == start.page_base + table_at(argv, envp),
        forall|i: int| 0 <= i < argv.len() ==> !(#[trigger] argv[i]).contains(0u8),
        forall|i: int| 0 <= i < envp.len() ==> !(#[trigger] envp[i]).contains(0u8),
        0 <= index,
    ensures
        index < argv.len() ==> start.spec_argument(index) == Some(argv[index]),
        index >= argv.len() ==> start.spec_argument(index) is None,
        start.spec_environment(name) == value_in(envp, name),
        start.spec_value(name) == value_in(envp, name),
{
    arguments_read_back(start.page@, start.page_base as int, argv, envp, index);
    variables_read_back(start.page@, start.page_base as int, argv, envp, name);
    let base = start.page_base as int;
    match variable(start.page@, base, start.stack as int, name) {
        Some(address) => {
            if 0 <= address - base < start.page@.len() {
                bytes::lemma_first_at(start.page@, 0, address - base);
            }
        },
        None => {},
    }
}

/// A word is read where all of its eight bytes are on the page, and only there; a
/// string where it begins on the page and ends there.
pub proof fn only_the_page_is_read(page: Seq<u8>, page_base: int, address: int)
    ensures
        word(page, page_base, address) is Some <==> page_base <= address && address + 8
            <= page_base + page.len(),
        word(page, page_base, address) is Some ==> word(page, page_base, address)->0 == le::value(
            page.subrange(address - page_base, address - page_base + 8),
        ),
        text(page, page_base, address) is Some <==> page_base <= address && exists|end: int|
            address - page_base <= end < page.len() && #[trigger] page[end] == 0,
        text(page, page_base, address) is Some ==> {
            let found = text(page, page_base, address)->0;
            let at = address - page_base;
            &&& found == page.subrange(at, at + found.len())
            &&& page[at + found.len()] == 0
            &&& !found.contains(0)
        },
{
    let at = address - page_base;
    if 0 <= at <= page.len() {
        bytes::lemma_first_at(page, 0, at);
        if exists|end: int| at <= end < page.len() && #[trigger] page[end] == 0 {
            let end = choose|end: int| at <= end < page.len() && #[trigger] page[end] == 0;
            assert(bytes::first_at(page, 0, at) <= end);
        }
    }
}

/// Looking a variable up goes from line to line: a line that sets another name, or
/// that the page does not hold, is passed over; and the zero behind the last line
/// ends it.
pub proof fn lines_are_looked_at_in_order(page: Seq<u8>, page_base: int, at: int, name: Seq<u8>)
    requires
        page_base <= at,
    ensures
        at + 8 > page_base + page.len() ==> variable_from(page, page_base, at, name) is None,
        at + 8 <= page_base + page.len() ==> {
            let address = le::field(page, at - page_base, 8);
            let line = text(page, page_base, address);
            let found = variable_from(page, page_base, at, name);
            &&& address == 0 ==> found is None
            &&& address != 0 && line is None ==> found == variable_from(
                page,
                page_base,
                at + 8,
                name,
            )
            &&& address != 0 && line is Some && sets(line->0, name) ==> found == Some(
                address + name.len() + 1,
            )
            &&& address != 0 && line is Some && !sets(line->0, name) ==> found == variable_from(
                page,
                page_base,
                at + 8,
                name,
            )
        },
{
}

} // verus!
