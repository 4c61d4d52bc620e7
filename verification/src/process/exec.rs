//! Starting a new program: what kind of executable a file is, the command line it gets and the
//! stack it is entered with.
use vstd::prelude::*;
use crate::errno::{Errno, EResult};
use crate::process::elf::{AuxvEntry, ELF_MAGIC};

verus! {

/// How deeply program interpreters may refer to further interpreters.
pub const MAX_INTERP_DEPTH: u8 = 8;

/// Process arguments and other info for a new program.
pub struct Cmdline {
    /// Path of the program.
    pub binary: Vec<u8>,
    /// Arguments, without their NUL terminators.
    pub argv: Vec<Vec<u8>>,
    /// Environment variables, without their NUL terminators.
    pub envp: Vec<Vec<u8>>,
    /// Auxiliary vector.
    pub auxv: Vec<AuxvEntry>,
}

/// The byte sequences that a list of byte vectors holds.
pub open spec fn views(v: Seq<Vec<u8>>) -> Seq<Seq<u8>> {
    v.map_values(|x: Vec<u8>| x@)
}

impl Cmdline {
    /// Put `words` in front of the arguments, in order, as a `#!` line asks.
    pub fn prepend_args(&mut self, words: Vec<Vec<u8>>)
        ensures
            views(final(self).argv@) == views(words@) + views(old(self).argv@),
            final(self).binary@ == old(self).binary@,
            views(final(self).envp@) == views(old(self).envp@),
            final(self).auxv@ == old(self).auxv@,
    {
        let mut out = words;
        let ghost w0 = out@;
        out.append(&mut self.argv);
        proof {
            assert(views(out@) =~= views(w0) + views(old(self).argv@));
        }
        self.argv = out;
    }
}

/// The kinds of executable files.
#[derive(Clone, Copy, Debug, PartialEq, Eq, Structural)]
pub enum ExecFormat {
    /// An ELF file.
    Elf,
    /// A script whose first line names its interpreter after `#!`.
    Shebang,
}

/// How to execute a file whose first `magic_len` bytes are the start of `magic`, `depth`
/// interpreters deep: too deep is `EMLINK`, anything but a regular file or an unknown kind of
/// file is `ENOEXEC`.
pub fn exec_format(depth: u8, is_regular: bool, magic: [u8; 4], magic_len: usize) -> (r: EResult<ExecFormat>)
    ensures
        depth > MAX_INTERP_DEPTH ==> r == Err::<ExecFormat, Errno>(Errno::EMLINK),
        depth <= MAX_INTERP_DEPTH && !is_regular ==> r == Err::<ExecFormat, Errno>(Errno::ENOEXEC),
        depth <= MAX_INTERP_DEPTH && is_regular ==> r == if magic_len >= 4 && magic@ == ELF_MAGIC@ {
            Ok::<ExecFormat, Errno>(ExecFormat::Elf)
        } else if magic_len >= 2 && magic[0] == 0x23 && magic[1] == 0x21 {
            Ok::<ExecFormat, Errno>(ExecFormat::Shebang)
        } else {
            Err::<ExecFormat, Errno>(Errno::ENOEXEC)
        },
{
    if depth > MAX_INTERP_DEPTH {
        return Err(Errno::EMLINK);
    }
    if !is_regular {
        return Err(Errno::ENOEXEC);
    }
    let m = ELF_MAGIC;
    let elf = magic[0] == m[0] && magic[1] == m[1] && magic[2] == m[2] && magic[3] == m[3];
    proof {
        if elf {
            assert(magic@ =~= ELF_MAGIC@);
        }
        if magic@ == ELF_MAGIC@ {
            assert(magic@[0] == m@[0] && magic@[1] == m@[1] && magic@[2] == m@[2] && magic@[3] == m@[3]);
        }
    }
    if magic_len >= 4 && elf {
        Ok(ExecFormat::Elf)
    } else if magic_len >= 2 && magic[0] == 0x23 && magic[1] == 0x21 {
        Ok(ExecFormat::Shebang)
    } else {
        Err(Errno::ENOEXEC)
    }
}

/// Bytes that the NUL-terminated strings `strs` take, packed one after the other.
pub open spec fn packed_len(strs: Seq<Seq<u8>>) -> int
    decreases strs.len(),
{
    if strs.len() == 0 {
        0
    } else {
        packed_len(strs.drop_last()) + strs.last().len() + 1
    }
}

/// Where the strings `strs` go when they are pushed, one after the other, down from `top`.
pub open spec fn string_addrs(top: int, strs: Seq<Seq<u8>>) -> Seq<int> {
    Seq::new(strs.len(), |i: int| top - packed_len(strs.take(i + 1)))
}

/// The auxiliary vector as it lies on the stack: type and value of each entry in turn.
pub open spec fn auxv_words(auxv: Seq<AuxvEntry>) -> Seq<usize> {
    Seq::new(2 * auxv.len(), |i: int| if i % 2 == 0 { auxv[i / 2].type_ } else { auxv[i / 2].value })
}

/// Bytes in a pointer.
pub open spec fn word_size() -> int {
    usize::BITS as int / 8
}

/// Addresses as the words of the stack hold them.
pub open spec fn as_words(a: Seq<int>) -> Seq<usize> {
    a.map_values(|x: int| x as usize)
}

/// One string written to the new stack: its bytes, NUL included, at `addr`.
pub struct StackString {
    pub addr: usize,
    pub bytes: Vec<u8>,
}

/// The initial stack of a program: the strings to write, the words to write at `sp`, and `sp`.
pub struct EntryStack {
    pub strings: Vec<StackString>,
    pub words: Vec<usize>,
    pub sp: usize,
}

/// Whether the strings and words of an entry stack fit below `top`.
pub open spec fn entry_stack_fits(top: int, argv: Seq<Seq<u8>>, envp: Seq<Seq<u8>>, auxv: Seq<AuxvEntry>) -> bool {
    top - packed_len(argv) - packed_len(envp) - word_size() * (argv.len() + envp.len() + 2 * auxv.len() + 4) >= 0
}

/// The words of the entry stack: the argument count, the argument pointers and a zero, the
/// environment pointers and a zero, the auxiliary vector and a zero.
pub open spec fn entry_words(top: int, argv: Seq<Seq<u8>>, envp: Seq<Seq<u8>>, auxv: Seq<AuxvEntry>) -> Seq<usize> {
    seq![argv.len() as usize] + as_words(string_addrs(top, argv)) + seq![0usize] + as_words(
        string_addrs(top - packed_len(argv), envp),
    ) + seq![0usize] + auxv_words(auxv) + seq![0usize]
}

/// The words at the new stack pointer: the argument count, a pointer to each argument in
/// order and a zero, a pointer to each environment string in order and a zero, then type and
/// value of each auxiliary entry in order, and a closing zero.
pub proof fn lemma_entry_words_layout(top: int, a: Seq<Seq<u8>>, e: Seq<Seq<u8>>, auxv: Seq<AuxvEntry>)
    ensures
        ({
            let w = entry_words(top, a, e, auxv);
            let na = a.len() as int;
            let ne = e.len() as int;
            let nx = auxv.len() as int;
            &&& w.len() == na + ne + 2 * nx + 4
            &&& w[0] == a.len() as usize
            &&& forall|i: int| 0 <= i < na ==> w[1 + i] == (#[trigger] string_addrs(top, a)[i]) as usize
            &&& w[na + 1] == 0
            &&& forall|i: int| 0 <= i < ne ==> w[na + 2 + i] == (#[trigger] string_addrs(top - packed_len(a), e)[i]) as usize
            &&& w[na + ne + 2] == 0
            &&& forall|k: int| 0 <= k < nx ==> w[na + ne + 3 + 2 * k] == (#[trigger] auxv[k]).type_ && w[na + ne + 4 + 2 * k]
                == auxv[k].value
            &&& w[na + ne + 2 * nx + 3] == 0
        }),
{
    let na = a.len() as int;
    let ne = e.len() as int;
    let nx = auxv.len() as int;
    let p0 = seq![a.len() as usize];
    let p1 = as_words(string_addrs(top, a));
    let p2 = as_words(string_addrs(top - packed_len(a), e));
    let p3 = auxv_words(auxv);
    let w = entry_words(top, a, e, auxv);
    assert(w == p0 + p1 + seq![0usize] + p2 + seq![0usize] + p3 + seq![0usize]);
    assert forall|k: int| 0 <= k < nx implies w[na + ne + 3 + 2 * k] == (#[trigger] auxv[k]).type_ && w[na + ne + 4 + 2 * k]
        == auxv[k].value by {
        assert(p3[2 * k] == auxv[k].type_);
        assert(p3[2 * k + 1] == auxv[k].value);
    }
}

/// The strings are pushed one after the other, down from `top`, each with its NUL: the first
/// ends at `top`, and each next one ends where the one before it starts.
pub proof fn lemma_string_addrs_packed(top: int, strs: Seq<Seq<u8>>)
    ensures
        strs.len() > 0 ==> string_addrs(top, strs)[0] == top - strs[0].len() - 1,
        forall|i: int| 0 <= i < strs.len() - 1 ==> #[trigger] string_addrs(top, strs)[i + 1] == string_addrs(top, strs)[i]
            - strs[i + 1].len() - 1,
{
    if strs.len() > 0 {
        lemma_packed_len_take(strs, 0);
        assert(strs.take(0) =~= Seq::<Seq<u8>>::empty());
    }
    assert forall|i: int| 0 <= i < strs.len() - 1 implies #[trigger] string_addrs(top, strs)[i + 1] == string_addrs(top, strs)[i]
        - strs[i + 1].len() - 1 by {
        lemma_packed_len_take(strs, i + 1);
    }
}

proof fn lemma_packed_len_take(strs: Seq<Seq<u8>>, k: int)
    requires
        0 <= k < strs.len(),
    ensures
        packed_len(strs.take(k + 1)) == packed_len(strs.take(k)) + strs[k].len() + 1,
{
    assert(strs.take(k + 1).drop_last() =~= strs.take(k));
}

proof fn lemma_packed_len_mono(strs: Seq<Seq<u8>>, k: int)
    requires
        0 <= k <= strs.len(),
    ensures
        0 <= packed_len(strs.take(k)) <= packed_len(strs),
    decreases strs.len() - k,
{
    lemma_packed_len_nonneg(strs.take(k));
    if k < strs.len() {
        lemma_packed_len_take(strs, k);
        lemma_packed_len_mono(strs, k + 1);
    } else {
        assert(strs.take(k) =~= strs);
        lemma_packed_len_nonneg(strs);
    }
}

proof fn lemma_packed_len_nonneg(strs: Seq<Seq<u8>>)
    ensures
        packed_len(strs) >= 0,
    decreases strs.len(),
{
    if strs.len() > 0 {
        lemma_packed_len_nonneg(strs.drop_last());
    }
}

/// Push the strings `strs` down from `top`, recording each and its address.
fn push_strings(top: usize, strs: &Vec<Vec<u8>>, out: &mut Vec<StackString>, addrs: &mut Vec<usize>) -> (end: usize)
    requires
        top - packed_len(views(strs@)) >= 0,
    ensures
        end == top - packed_len(views(strs@)),
        final(addrs)@ == old(addrs)@ + as_words(string_addrs(top as int, views(strs@))),
        final(out)@.len() == old(out)@.len() + strs@.len(),
        forall|i: int| 0 <= i < old(out)@.len() ==> #[trigger] final(out)@[i] == old(out)@[i],
        forall|i: int|
            0 <= i < strs@.len() ==> (#[trigger] final(out)@[old(out)@.len() + i]).addr == string_addrs(
                top as int,
                views(strs@),
            )[i] && final(out)@[old(out)@.len() + i].bytes@ == strs@[i]@.push(0u8),
{
    let ghost s = views(strs@);
    let ghost o0 = out@;
    let ghost a0 = addrs@;
    let mut cur = top;
    let mut i: usize = 0;
    while i < strs.len()
        invariant
            s == views(strs@),
            top - packed_len(s) >= 0,
            i <= strs@.len(),
            cur == top - packed_len(s.take(i as int)),
            addrs@ == a0 + as_words(string_addrs(top as int, s).take(i as int)),
            out@.len() == o0.len() + i,
            forall|j: int| 0 <= j < o0.len() ==> #[trigger] out@[j] == o0[j],
            forall|j: int|
                0 <= j < i ==> (#[trigger] out@[o0.len() + j]).addr == string_addrs(top as int, s)[j]
                    && out@[o0.len() + j].bytes@ == strs@[j]@.push(0u8),
        decreases strs@.len() - i,
    {
        proof {
            lemma_packed_len_take(s, i as int);
            lemma_packed_len_mono(s, i + 1);
        }
        let mut bytes: Vec<u8> = strs[i].clone();
        proof {
            assert(bytes@ =~= strs@[i as int]@);
        }
        bytes.push(0);
        cur = cur - bytes.len();
        out.push(StackString { addr: cur, bytes });
        addrs.push(cur);
        proof {
            assert(as_words(string_addrs(top as int, s).take(i + 1)) =~= as_words(string_addrs(top as int, s).take(i as int)).push(cur));
        }
        i = i + 1;
    }
    proof {
        assert(s.take(i as int) =~= s);
        assert(string_addrs(top as int, s).take(i as int) =~= string_addrs(top as int, s));
    }
    cur
}

/// The initial stack of a program below `top`: the arguments and then the environment pushed
/// down from `top`, and below them, aligned down to 16 bytes, the words of [`entry_words`];
/// `None` if that does not fit in the address space.
pub fn entry_stack(top: usize, argv: &Vec<Vec<u8>>, envp: &Vec<Vec<u8>>, auxv: &Vec<AuxvEntry>) -> (r: Option<EntryStack>)
    ensures
        !entry_stack_fits(top as int, views(argv@), views(envp@), auxv@) ==> r is None,
        entry_stack_fits(top as int, views(argv@), views(envp@), auxv@) ==> (r matches Some(st) && {
            let a = views(argv@);
            let e = views(envp@);
            let words = entry_words(top as int, a, e, auxv@);
            let low = top - packed_len(a) - packed_len(e) - word_size() * words.len();
            &&& st.words@ == words
            &&& st.sp == low - low % 16
            &&& st.strings@.len() == argv@.len() + envp@.len()
            &&& forall|i: int| 0 <= i < argv@.len() ==> (#[trigger] st.strings@[i]).addr == string_addrs(top as int, a)[i]
                && st.strings@[i].bytes@ == a[i].push(0u8)
            &&& forall|i: int| 0 <= i < envp@.len() ==> (#[trigger] st.strings@[argv@.len() + i]).addr == string_addrs(
                top - packed_len(a),
                e,
            )[i] && st.strings@[argv@.len() + i].bytes@ == e[i].push(0u8)
        }),
{
    let ghost a = views(argv@);
    let ghost e = views(envp@);
    proof {
        lemma_packed_len_nonneg(a);
        lemma_packed_len_nonneg(e);
    }
    let w: usize = (usize::BITS / 8) as usize;
    // Check that everything fits before pushing anything.
    let mut i: usize = 0;
    let nwords: u128 = (argv.len() as u128) + (envp.len() as u128) + 2 * (auxv.len() as u128) + 4;
    assert(w == word_size() && (w == 4 || w == 8));
    assert(nwords * (w as int) <= nwords * 8) by (nonlinear_arith)
        requires
            w <= 8,
    ;
    let word_bytes_big: u128 = nwords * (w as u128);
    assert(word_bytes_big == word_size() * (argv@.len() + envp@.len() + 2 * auxv@.len() + 4)) by (nonlinear_arith)
        requires
            word_bytes_big == nwords * w,
            nwords == argv@.len() + envp@.len() + 2 * auxv@.len() + 4,
            w == word_size(),
    ;
    if word_bytes_big > top as u128 {
        return None;
    }
    let word_bytes: usize = word_bytes_big as usize;
    let mut left: usize = top - word_bytes;
    while i < argv.len()
        invariant
            a == views(argv@),
            e == views(envp@),
            packed_len(e) >= 0,
            i <= argv@.len(),
            left == top - word_bytes - packed_len(a.take(i as int)),
            word_bytes == word_size() * (argv@.len() + envp@.len() + 2 * auxv@.len() + 4),
        decreases argv@.len() - i,
    {
        proof {
            lemma_packed_len_take(a, i as int);
        }
        let l = argv[i].len();
        assert(l == a[i as int].len());
        if l >= left {
            proof {
                lemma_packed_len_mono(a, i + 1);
                lemma_packed_len_nonneg(e);
            }
            return None;
        }
        left = left - l - 1;
        i = i + 1;
    }
    proof {
        assert(a.take(i as int) =~= a);
    }
    let mut j: usize = 0;
    while j < envp.len()
        invariant
            a == views(argv@),
            e == views(envp@),
            j <= envp@.len(),
            left == top - word_bytes - packed_len(a) - packed_len(e.take(j as int)),
            word_bytes == word_size() * (argv@.len() + envp@.len() + 2 * auxv@.len() + 4),
        decreases envp@.len() - j,
    {
        proof {
            lemma_packed_len_take(e, j as int);
        }
        let l = envp[j].len();
        assert(l == e[j as int].len());
        if l >= left {
            proof {
                lemma_packed_len_mono(e, j + 1);
            }
            return None;
        }
        left = left - l - 1;
        j = j + 1;
    }
    proof {
        assert(e.take(j as int) =~= e);
    }
    let mut strings: Vec<StackString> = Vec::new();
    let mut argv_ptrs: Vec<usize> = Vec::new();
    let ghost s0 = strings@;
    let argv_end = push_strings(top, argv, &mut strings, &mut argv_ptrs);
    let mut envp_ptrs: Vec<usize> = Vec::new();
    let ghost s1 = strings@;
    let envp_end = push_strings(argv_end, envp, &mut strings, &mut envp_ptrs);
    let mut words: Vec<usize> = Vec::new();
    words.push(argv.len());
    words.append(&mut argv_ptrs);
    words.push(0);
    words.append(&mut envp_ptrs);
    words.push(0);
    let mut n: usize = 0;
    while n < auxv.len()
        invariant
            n <= auxv@.len(),
            words@ == seq![argv@.len() as usize] + as_words(string_addrs(top as int, a)) + seq![0usize] + as_words(
                string_addrs(top - packed_len(a), e),
            ) + seq![0usize] + auxv_words(auxv@).take(2 * n),
        decreases auxv@.len() - n,
    {
        let ent = auxv[n];
        let ghost w0 = words@;
        words.push(ent.type_);
        words.push(ent.value);
        proof {
            assert(auxv_words(auxv@).take(2 * (n + 1)) =~= auxv_words(auxv@).take(2 * n).push(ent.type_).push(ent.value));
        }
        n = n + 1;
    }
    words.push(0);
    proof {
        assert(auxv_words(auxv@).take(2 * n) =~= auxv_words(auxv@));
        assert(words@ =~= entry_words(top as int, a, e, auxv@));
    }
    let low = envp_end - w * words.len();
    let sp = low - low % 16;
    proof {
        assert(w * words@.len() == word_size() * words@.len());
        assert(strings@.len() == argv@.len() + envp@.len());
        assert forall|i: int| 0 <= i < argv@.len() implies (#[trigger] strings@[i]).addr == string_addrs(top as int, a)[i]
            && strings@[i].bytes@ == a[i].push(0u8) by {
            assert(s0.len() == 0);
            assert(s1[s0.len() + i].addr == string_addrs(top as int, a)[i]);
            assert(strings@[i] == s1[i]);
        }
        assert forall|i: int| 0 <= i < envp@.len() implies (#[trigger] strings@[argv@.len() + i]).addr == string_addrs(
            top - packed_len(a),
            e,
        )[i] && strings@[argv@.len() + i].bytes@ == e[i].push(0u8) by {
            assert(strings@[s1.len() + i] == strings@[argv@.len() + i]);
        }
    }
    Some(EntryStack { strings, words, sp })
}

} // verus!
