//! The initial stack of a process: arguments, environment and auxiliary
//! vector, laid out the way the C library expects them.
use vstd::prelude::*;
use vstd::string::StringSliceAdditionalSpecFns;
use crate::loader::elf::LoadError;

verus! {

/// Key of the auxiliary vector: address of the program headers.
pub const AT_PHDR: u8 = 3;

/// Key of the auxiliary vector: size of one program header.
pub const AT_PHENT: u8 = 4;

/// Key of the auxiliary vector: number of program headers.
pub const AT_PHNUM: u8 = 5;

/// Key of the auxiliary vector: page size.
pub const AT_PAGESZ: u8 = 6;

/// Key of the auxiliary vector: load base of the interpreter.
pub const AT_BASE: u8 = 7;

/// Key of the auxiliary vector: entry point of the program.
pub const AT_ENTRY: u8 = 9;

/// One entry of the auxiliary vector.
#[derive(Clone, Copy, Debug, PartialEq, Eq, Structural)]
pub struct AuxEntry {
    /// What the entry tells.
    pub key: u8,
    /// The value.
    pub value: u64,
}

/// What a new process finds on its stack.
pub struct ProcInitInfo {
    /// The arguments; the first is the program's name.
    pub args: Vec<String>,
    /// The environment, one `NAME=value` each.
    pub envs: Vec<String>,
    /// The auxiliary vector, in the order in which the entries are pushed:
    /// the first ends up at the highest address.
    pub auxv: Vec<AuxEntry>,
}

/// The initial stack, ready to be copied to its place.
pub struct InitStack {
    /// The stack pointer at entry: the address of the argument count.
    pub sp: u64,
    /// The bytes from `sp` up to the top of the stack.
    pub bytes: Vec<u8>,
}

/// Byte `k` of `x`, counted from the lowest.
pub open spec fn le_byte(x: u64, k: u64) -> u8 {
    ((x >> (8 * k)) & 0xff) as u8
}

/// The words `words` as bytes, each word lowest byte first.
pub open spec fn words_bytes(words: Seq<u64>) -> Seq<u8> {
    Seq::new(words.len() * 8, |i: int| le_byte(words[i / 8], (i % 8) as u64))
}

/// The strings in the order in which they are pushed: the program's name,
/// the environment, the arguments.
pub open spec fn push_order(args: Seq<String>, envs: Seq<String>) -> Seq<Seq<u8>> {
    Seq::new(
        1 + envs.len() + args.len(),
        |k: int|
            if k == 0 {
                vstd::utf8::encode_utf8(args[0]@)
            } else if k <= envs.len() {
                vstd::utf8::encode_utf8(envs[k - 1]@)
            } else {
                vstd::utf8::encode_utf8(args[k - 1 - envs.len()]@)
            },
    )
}

/// The address below the first `n` strings of `strs` when they are pushed
/// from `top` downwards, each with a zero byte after it.
pub open spec fn addr_after(strs: Seq<Seq<u8>>, top: int, n: int) -> int
    decreases n,
{
    if n <= 0 {
        top
    } else {
        addr_after(strs, top, n - 1) - (strs[n - 1].len() + 1)
    }
}

/// The bytes of the strings `from ..` of `strs` as they lie in memory: the
/// one pushed last comes first, and each is followed by a zero byte.
pub open spec fn blob(strs: Seq<Seq<u8>>, from: int) -> Seq<u8>
    decreases strs.len() - from,
{
    if from >= strs.len() {
        Seq::empty()
    } else {
        blob(strs, from + 1) + strs[from] + seq![0u8]
    }
}

/// The words of the stack from the argument count up to the end of the
/// auxiliary vector: the argument count, a pointer to each argument, zero, a
/// pointer to each environment string, zero, key and value of each
/// auxiliary entry, the one pushed last first, and two zeroes.
pub open spec fn stack_words(
    nargs: int,
    nenvs: int,
    auxv: Seq<AuxEntry>,
    strs: Seq<Seq<u8>>,
    top: int,
) -> Seq<u64> {
    Seq::new(
        (nargs + nenvs + 2 * auxv.len() + 5) as nat,
        |i: int|
            if i == 0 {
                nargs as u64
            } else if i <= nargs {
                addr_after(strs, top, 1 + nenvs + i) as u64
            } else if i == nargs + 1 {
                0u64
            } else if i <= nargs + 1 + nenvs {
                addr_after(strs, top, i - nargs) as u64
            } else if i == nargs + nenvs + 2 {
                0u64
            } else if i < nargs + nenvs + 3 + 2 * auxv.len() {
                let j = i - (nargs + nenvs + 3);
                let e = auxv[auxv.len() - 1 - j / 2];
                if j % 2 == 0 {
                    e.key as u64
                } else {
                    e.value
                }
            } else {
                0u64
            },
    )
}

/// The stack pointer at entry: the greatest multiple of 16 that leaves
/// room for `nwords` words below the address `below`.
pub open spec fn entry_sp(below: int, nwords: int) -> int {
    (below - 8 * nwords) - (below - 8 * nwords) % 16
}

/// The initial stack below `top`: the words of [`stack_words`] from the
/// stack pointer on, then zero bytes up to the strings, then the strings.
pub open spec fn stack_image(
    args: Seq<String>,
    envs: Seq<String>,
    auxv: Seq<AuxEntry>,
    top: int,
) -> Seq<u8> {
    let strs = push_order(args, envs);
    let below = addr_after(strs, top, strs.len() as int);
    let words = stack_words(args.len() as int, envs.len() as int, auxv, strs, top);
    let sp = entry_sp(below, words.len() as int);
    words_bytes(words) + Seq::new((below - sp - 8 * words.len()) as nat, |i: int| 0u8) + blob(
        strs,
        0,
    )
}

/// The strings `from ..` take as many bytes as lie between the address
/// below all strings and the address below the first `from`.
pub proof fn lemma_blob_len(strs: Seq<Seq<u8>>, top: int, from: int)
    requires
        0 <= from <= strs.len(),
    ensures
        blob(strs, from).len() == addr_after(strs, top, from) - addr_after(
            strs,
            top,
            strs.len() as int,
        ),
    decreases strs.len() - from,
{
    lemma_addr_after_step(strs, top, from, strs.len() as int);
    if from < strs.len() {
        lemma_blob_len(strs, top, from + 1);
        lemma_addr_after_step(strs, top, from + 1, strs.len() as int);
    }
}

/// Addresses go down as strings are pushed.
pub proof fn lemma_addr_after_step(strs: Seq<Seq<u8>>, top: int, a: int, b: int)
    requires
        0 <= a <= b <= strs.len(),
    ensures
        addr_after(strs, top, b) <= addr_after(strs, top, a),
        a < b ==> addr_after(strs, top, b) < addr_after(strs, top, a),
    decreases b - a,
{
    if a < b {
        lemma_addr_after_step(strs, top, a, b - 1);
    }
}

impl ProcInitInfo {
    /// String `k` in push order.
    fn nth(&self, k: usize) -> (s: &[u8])
        requires
            self.args@.len() > 0,
            k < 1 + self.envs@.len() + self.args@.len(),
        ensures
            s@ == push_order(self.args@, self.envs@)[k as int],
    {
        if k == 0 {
            self.args[0].as_str().as_bytes()
        } else if k <= self.envs.len() {
            self.envs[k - 1].as_str().as_bytes()
        } else {
            self.args[k - 1 - self.envs.len()].as_str().as_bytes()
        }
    }

    /// What [`ProcInitInfo::push_at`] returns for the stack top `top` and
    /// the lowest usable address `limit`: the stack pointer, or `None` where
    /// there is no argument or the stack does not fit.
    pub open spec fn entry_sp_for(&self, top: int, limit: int) -> Option<int> {
        let strs = push_order(self.args@, self.envs@);
        let below = addr_after(strs, top, strs.len() as int);
        let nwords = (self.args@.len() + self.envs@.len() + 2 * self.auxv@.len() + 5) as int;
        if self.args@.len() == 0 || entry_sp(below, nwords) < limit {
            None
        } else {
            Some(entry_sp(below, nwords))
        }
    }

    /// Lays out the initial stack below the address `stack_top`, which is a
    /// multiple of 16. From the top down come the program's name, the
    /// environment strings and the arguments, each string followed by a
    /// zero byte; then, with the stack pointer at a multiple of 16, the
    /// auxiliary vector closed by two zero words, the pointers to the
    /// environment strings closed by a zero word, the pointers to the
    /// arguments closed by a zero word, and the argument count.
    ///
    /// Returns the stack pointer and the bytes from there to the top.
    /// Fails with `BadArguments` when there is no argument or the stack
    /// would reach below `limit`.
    pub fn push_at(&self, stack_top: u64, limit: u64) -> (r: Result<InitStack, LoadError>)
        requires
            stack_top % 16 == 0,
        ensures
            r is Ok <==> self.entry_sp_for(stack_top as int, limit as int) is Some,
            r matches Err(e) ==> e == LoadError::BadArguments,
            r matches Ok(stack) ==> {
                &&& Some(stack.sp as int) == self.entry_sp_for(stack_top as int, limit as int)
                &&& stack.sp % 16 == 0
                &&& limit <= stack.sp <= stack_top
                &&& stack.bytes@ == stack_image(
                    self.args@,
                    self.envs@,
                    self.auxv@,
                    stack_top as int,
                )
                &&& stack.bytes@.len() == stack_top - stack.sp
            },
    {
        let nargs: usize = self.args.len();
        let nenvs: usize = self.envs.len();
        let naux: usize = self.auxv.len();
        if nargs == 0 {
            return Err(LoadError::BadArguments);
        }
        let ghost strs = push_order(self.args@, self.envs@);
        let ghost top = stack_top as int;
        let total: u128 = 1 + nenvs as u128 + nargs as u128;
        // Where each string goes.
        let mut ptrs: Vec<u64> = Vec::new();
        let mut cur: u64 = stack_top;
        let mut k: usize = 0;
        while (k as u128) < total
            invariant
                nargs == self.args@.len(),
                nenvs == self.envs@.len(),
                nargs > 0,
                total == 1 + nenvs + nargs,
                k <= total,
                strs == push_order(self.args@, self.envs@),
                top == stack_top,
                ptrs@.len() == k,
                cur == addr_after(strs, top, k as int),
                limit <= cur || k == 0,
                forall|j: int| 0 <= j < k ==> ptrs@[j] == addr_after(strs, top, j + 1),
            decreases total - k,
        {
            let s: &[u8] = self.nth(k);
            let need: u128 = s.len() as u128 + 1;
            if (cur as u128) < need || ((cur as u128) - need) < limit as u128 {
                proof {
                    lemma_addr_after_step(strs, top, k + 1, strs.len() as int);
                    assert(addr_after(strs, top, k + 1) == cur - need);
                }
                return Err(LoadError::BadArguments);
            }
            cur = cur - (need as u64);
            ptrs.push(cur);
            k = ptrs.len();
        }
        let nwords: u128 = nargs as u128 + nenvs as u128 + 2 * (naux as u128) + 5;
        if (cur as u128) < 8 * nwords {
            return Err(LoadError::BadArguments);
        }
        let room: u64 = cur - (8 * nwords) as u64;
        let sp: u64 = room - room % 16;
        if sp < limit {
            return Err(LoadError::BadArguments);
        }
        // The words.
        let ghost words = stack_words(nargs as int, nenvs as int, self.auxv@, strs, top);
        let mut bytes: Vec<u8> = Vec::new();
        proof {
            assert(bytes@ =~= words_bytes(words.subrange(0, 0)));
        }
        push_word(&mut bytes, nargs as u64, Ghost(words), Ghost(0));
        let mut i: usize = 0;
        while i < nargs
            invariant
                i <= nargs,
                nargs == self.args@.len(),
                nenvs == self.envs@.len(),
                ptrs.len() == 1 + nenvs + nargs,
                forall|j: int| 0 <= j < ptrs@.len() ==> ptrs@[j] == addr_after(strs, top, j + 1),
                words == stack_words(nargs as int, nenvs as int, self.auxv@, strs, top),
                bytes@ == words_bytes(words.subrange(0, 1 + i)),
            decreases nargs - i,
        {
            push_word(&mut bytes, ptrs[1 + nenvs + i], Ghost(words), Ghost(1 + i as int));
            i += 1;
        }
        push_word(&mut bytes, 0, Ghost(words), Ghost(1 + nargs as int));
        let mut i: usize = 0;
        while i < nenvs
            invariant
                i <= nenvs,
                nargs == self.args@.len(),
                nenvs == self.envs@.len(),
                ptrs.len() == 1 + nenvs + nargs,
                forall|j: int| 0 <= j < ptrs@.len() ==> ptrs@[j] == addr_after(strs, top, j + 1),
                words == stack_words(nargs as int, nenvs as int, self.auxv@, strs, top),
                bytes@ == words_bytes(words.subrange(0, 2 + nargs + i)),
            decreases nenvs - i,
        {
            push_word(&mut bytes, ptrs[1 + i], Ghost(words), Ghost(2 + nargs + i as int));
            i += 1;
        }
        push_word(&mut bytes, 0, Ghost(words), Ghost(2 + nargs + nenvs as int));
        let mut i: usize = 0;
        while i < naux
            invariant
                i <= naux,
                naux == self.auxv@.len(),
                nargs == self.args@.len(),
                nenvs == self.envs@.len(),
                words == stack_words(nargs as int, nenvs as int, self.auxv@, strs, top),
                bytes@ == words_bytes(words.subrange(0, 3 + nargs + nenvs + 2 * i)),
            decreases naux - i,
        {
            let e: AuxEntry = self.auxv[naux - 1 - i];
            push_word(&mut bytes, e.key as u64, Ghost(words), Ghost(3 + nargs + nenvs + 2 * i));
            push_word(&mut bytes, e.value, Ghost(words), Ghost(4 + nargs + nenvs + 2 * i));
            i += 1;
        }
        push_word(&mut bytes, 0, Ghost(words), Ghost(3 + nargs + nenvs + 2 * naux));
        push_word(&mut bytes, 0, Ghost(words), Ghost(4 + nargs + nenvs + 2 * naux));
        proof {
            assert(words.subrange(0, words.len() as int) == words);
        }
        // The gap.
        let gap: u64 = room % 16;
        let ghost head = bytes@;
        let mut i: u64 = 0;
        while i < gap
            invariant
                i <= gap,
                bytes@ == head + Seq::new(i as nat, |j: int| 0u8),
            decreases gap - i,
        {
            bytes.push(0u8);
            i += 1;
        }
        // The strings, the one pushed last first.
        let ghost body = bytes@;
        let mut k: usize = total as usize;
        while k > 0
            invariant
                k <= total,
                total == 1 + nenvs + nargs,
                nargs == self.args@.len(),
                nenvs == self.envs@.len(),
                nargs > 0,
                strs == push_order(self.args@, self.envs@),
                bytes@ == body + blob(strs, k as int),
            decreases k,
        {
            k -= 1;
            let s: &[u8] = self.nth(k);
            let ghost before = bytes@;
            let mut j: usize = 0;
            while j < s.len()
                invariant
                    j <= s.len(),
                    bytes@ == before + s@.subrange(0, j as int),
                decreases s.len() - j,
            {
                bytes.push(s[j]);
                j += 1;
            }
            bytes.push(0u8);
            proof {
                assert(s@.subrange(0, s@.len() as int) == s@);
                assert(bytes@ == body + (blob(strs, k + 1) + strs[k as int] + seq![0u8]));
            }
        }
        proof {
            lemma_blob_len(strs, top, 0);
            assert(bytes@ == stack_image(self.args@, self.envs@, self.auxv@, top));
        }
        Ok(InitStack { sp, bytes })
    }
}

/// Appends the word `w`, lowest byte first, to `bytes`, which hold the
/// first `at` words of `words`, of which `w` is the next.
fn push_word(bytes: &mut Vec<u8>, w: u64, Ghost(words): Ghost<Seq<u64>>, Ghost(at): Ghost<int>)
    requires
        0 <= at < words.len(),
        words[at] == w,
        old(bytes)@ == words_bytes(words.subrange(0, at)),
    ensures
        final(bytes)@ == words_bytes(words.subrange(0, at + 1)),
{
    let mut k: u64 = 0;
    while k < 8
        invariant
            k <= 8,
            0 <= at < words.len(),
            words[at] == w,
            bytes@.len() == 8 * at + k,
            forall|i: int| 0 <= i < 8 * at ==> bytes@[i] == le_byte(words[i / 8], (i % 8) as u64),
            forall|i: int|
                8 * at <= i < 8 * at + k ==> #[trigger] bytes@[i] == le_byte(w, (i - 8 * at) as u64),
        decreases 8 - k,
    {
        let shifted: u64 = (w >> (8 * k)) & 0xff;
        proof {
            assert((w >> (8 * k)) & 0xff <= 0xff) by (bit_vector);
        }
        bytes.push(shifted as u8);
        k += 1;
    }
    proof {
        let target = words_bytes(words.subrange(0, at + 1));
        assert(bytes@.len() == target.len());
        assert forall|i: int| 0 <= i < bytes@.len() implies bytes@[i] == target[i] by {
            if i >= 8 * at {
                assert(i / 8 == at);
                assert(i % 8 == i - 8 * at);
            }
        }
        assert(bytes@ =~= target);
    }
}

} // verus!
